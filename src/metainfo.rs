use vstd::prelude::*;
use vstd::utf8::{encode_utf8, valid_utf8};
use crate::bencode::{BencodeValue, Bval, entries_view, lemma_entries_view, lemma_list_view, list_view};

verus! {

/// A DHT bootstrap node.
#[derive(Debug, PartialEq, Eq)]
pub struct Node {
    pub host: String,
    pub port: i64,
}

/// One file of a multi-file torrent.
#[derive(Debug, PartialEq, Eq)]
pub struct FileEntry {
    pub length: i64,
    pub path: Vec<String>,
    pub md5sum: Option<String>,
}

/// How the content is laid out: one file, or several.
#[derive(Debug, PartialEq, Eq)]
pub enum Layout {
    SingleFile { length: i64 },
    MultiFile { files: Vec<FileEntry> },
}

/// The info dictionary.
#[derive(Debug, PartialEq, Eq)]
pub struct Info {
    pub name: String,
    pub piece_length: i64,
    pub pieces: Vec<u8>,
    pub layout: Layout,
    pub private: Option<i64>,
    pub md5sum: Option<String>,
    pub path: Option<Vec<String>>,
    pub root_hash: Option<String>,
}

/// A metainfo file.
#[derive(Debug, PartialEq, Eq)]
pub struct Torrent {
    pub announce: Option<String>,
    pub info: Info,
    pub announce_list: Vec<Vec<String>>,
    pub nodes: Vec<Node>,
    pub creation_date: Option<i64>,
    pub comment: Option<String>,
    pub created_by: Option<String>,
    pub encoding: Option<String>,
}

/// Why a value tree is not a metainfo file; keys are named as they stand in the file.
///
/// Text fields must be valid UTF-8: a corrupted text is rejected with `InvalidUtf8`,
/// never repaired by a lossy conversion.
#[derive(Debug, PartialEq, Eq)]
pub enum MappingError {
    NotADictionary,
    MissingKey(String),
    WrongType(String),
    InvalidUtf8(String),
    AmbiguousLayout,
    MalformedNode,
}

/// The value under key `k` of a dictionary.
pub open spec fn lookup(es: Seq<(Seq<u8>, Bval)>, k: Seq<u8>) -> Option<Bval>
    decreases es.len(),
{
    if es.len() == 0 {
        None
    } else if es[0].0 == k {
        Some(es[0].1)
    } else {
        lookup(es.subrange(1, es.len() as int), k)
    }
}

/// The value under the text key `k` of `v`, when `v` is a dictionary.
pub open spec fn field(v: Bval, k: Seq<char>) -> Option<Bval> {
    match v {
        Bval::Dict(es) => lookup(es, encode_utf8(k)),
        _ => None,
    }
}

pub open spec fn has_key(v: Bval, k: Seq<char>) -> bool {
    field(v, k) is Some
}

/// Bytes that are valid UTF-8 text.
pub open spec fn is_text(v: Bval) -> bool {
    v matches Bval::Bytes(b) && valid_utf8(b)
}

/// `s` is the text that the value `v` holds.
pub open spec fn text_is(v: Bval, s: Seq<char>) -> bool {
    v == Bval::Bytes(encode_utf8(s))
}

pub open spec fn texts_view(l: Seq<String>) -> Seq<Seq<char>> {
    Seq::new(l.len(), |i: int| l[i]@)
}

/// `v` is a list of texts, and `l` holds them in order.
pub open spec fn text_list_is(v: Bval, l: Seq<Seq<char>>) -> bool {
    &&& v is List
    &&& v->List_0.len() == l.len()
    &&& forall|i: int| 0 <= i < l.len() ==> text_is(#[trigger] v->List_0[i], l[i])
}

/// An optional text field maps to `r`: absent is `None`.
pub open spec fn opt_text_is(v: Bval, k: Seq<char>, r: Option<String>) -> bool {
    match r {
        None => !has_key(v, k),
        Some(s) => field(v, k) == Some(Bval::Bytes(encode_utf8(s@))),
    }
}

pub open spec fn opt_int_is(v: Bval, k: Seq<char>, r: Option<i64>) -> bool {
    match r {
        None => !has_key(v, k),
        Some(n) => field(v, k) == Some(Bval::Int(n as int)),
    }
}

/// Relies on std's `String::from_utf8`: it succeeds exactly on valid UTF-8, and the
/// text it returns encodes back to the same bytes.
#[verifier::external_body]
fn utf8_text(b: &Vec<u8>) -> (r: Option<String>)
    ensures
        r is Some <==> valid_utf8(b@),
        r matches Some(s) ==> encode_utf8(s@) == b@,
{
    String::from_utf8(b.clone()).ok()
}

fn bytes_eq(a: &Vec<u8>, b: &[u8]) -> (r: bool)
    ensures
        r == (a@ == b@),
{
    if a.len() != b.len() {
        return false;
    }
    let mut i: usize = 0;
    while i < a.len()
        invariant
            i <= a.len(),
            a.len() == b.len(),
            forall|j: int| 0 <= j < i ==> a@[j] == b@[j],
        decreases a.len() - i,
    {
        if a[i] != b[i] {
            return false;
        }
        i = i + 1;
    }
    assert(a@ =~= b@);
    true
}

/// Finds the value under the text key `key`.
fn find<'a>(es: &'a Vec<(Vec<u8>, BencodeValue)>, key: &str) -> (r: Option<&'a BencodeValue>)
    ensures
        match r {
            Some(v) => lookup(entries_view(es@), encode_utf8(key@)) == Some(v@),
            None => lookup(entries_view(es@), encode_utf8(key@)) is None,
        },
{
    let kb = key.as_bytes();
    let ghost ev = entries_view(es@);
    proof {
        lemma_entries_view(es@);
        assert(ev.subrange(0, ev.len() as int) =~= ev);
    }
    let mut i: usize = 0;
    while i < es.len()
        invariant
            i <= es.len(),
            ev == entries_view(es@),
            ev.len() == es.len(),
            kb@ == encode_utf8(key@),
            forall|j: int| 0 <= j < es.len() ==> #[trigger] ev[j] == (es@[j].0@, es@[j].1.view()),
            lookup(ev, kb@) == lookup(ev.subrange(i as int, ev.len() as int), kb@),
        decreases es.len() - i,
    {
        let ghost rest = ev.subrange(i as int, ev.len() as int);
        assert(rest.subrange(1, rest.len() as int) =~= ev.subrange(i + 1, ev.len() as int));
        assert(rest[0] == ev[i as int]);
        if bytes_eq(&es[i].0, kb) {
            return Some(&es[i].1);
        }
        i = i + 1;
    }
    None
}


fn key_string(key: &str) -> (r: String)
    ensures
        r@ == key@,
{
    key.to_owned()
}

/// `e` names the key `k`.
pub open spec fn names(e: MappingError, k: Seq<char>) -> bool {
    match e {
        MappingError::MissingKey(s) => s@ == k,
        MappingError::WrongType(s) => s@ == k,
        MappingError::InvalidUtf8(s) => s@ == k,
        _ => false,
    }
}

/// The error that a text value `x` under key `k` gives, if any.
pub open spec fn text_error(x: Bval, k: Seq<char>, e: MappingError) -> bool {
    &&& names(e, k)
    &&& if x is Bytes { e is InvalidUtf8 && !valid_utf8(x->Bytes_0) } else { e is WrongType }
}

/// Reads a text value.
fn as_text(x: &BencodeValue, key: &str) -> (r: Result<String, MappingError>)
    ensures
        r is Ok <==> is_text(x@),
        r matches Ok(s) ==> text_is(x@, s@),
        r matches Err(e) ==> text_error(x@, key@, e),
{
    match x {
        BencodeValue::ByteString(b) => match utf8_text(b) {
            Some(s) => Ok(s),
            None => Err(MappingError::InvalidUtf8(key_string(key))),
        },
        _ => Err(MappingError::WrongType(key_string(key))),
    }
}

/// Reads an optional text field.
fn opt_text(es: &Vec<(Vec<u8>, BencodeValue)>, key: &str) -> (r: Result<Option<String>, MappingError>)
    ensures
        r matches Err(e) ==> error_in(Bval::Dict(entries_view(es@)), e),
        r is Ok <==> (field(Bval::Dict(entries_view(es@)), key@) matches Some(x) ==> is_text(x)),
        r matches Ok(o) ==> opt_text_is(Bval::Dict(entries_view(es@)), key@, o),
        r matches Err(e) ==> text_error(field(Bval::Dict(entries_view(es@)), key@)->Some_0, key@, e),
{
    match find(es, key) {
        None => Ok(None),
        Some(x) => match as_text(x, key) {
            Ok(s) => Ok(Some(s)),
            Err(e) => Err(e),
        },
    }
}

/// Reads a text field that must be there.
fn req_text(es: &Vec<(Vec<u8>, BencodeValue)>, key: &str) -> (r: Result<String, MappingError>)
    ensures
        r matches Err(e) ==> error_in(Bval::Dict(entries_view(es@)), e),
        r is Ok <==> (field(Bval::Dict(entries_view(es@)), key@) matches Some(x) && is_text(x)),
        r matches Ok(s) ==> field(Bval::Dict(entries_view(es@)), key@) == Some(Bval::Bytes(encode_utf8(s@))),
        r matches Err(e) ==> match field(Bval::Dict(entries_view(es@)), key@) {
            None => e is MissingKey && names(e, key@),
            Some(x) => text_error(x, key@, e),
        },
{
    match find(es, key) {
        None => Err(MappingError::MissingKey(key_string(key))),
        Some(x) => as_text(x, key),
    }
}

/// Reads an optional integer field.
fn opt_int(es: &Vec<(Vec<u8>, BencodeValue)>, key: &str) -> (r: Result<Option<i64>, MappingError>)
    ensures
        r matches Err(e) ==> error_in(Bval::Dict(entries_view(es@)), e),
        r is Ok <==> (field(Bval::Dict(entries_view(es@)), key@) matches Some(x) ==> x is Int),
        r matches Ok(o) ==> opt_int_is(Bval::Dict(entries_view(es@)), key@, o),
        r matches Err(e) ==> e is WrongType && names(e, key@),
{
    match find(es, key) {
        None => Ok(None),
        Some(BencodeValue::Integer(n)) => Ok(Some(*n)),
        Some(_) => Err(MappingError::WrongType(key_string(key))),
    }
}

/// Reads an integer field that must be there.
fn req_int(es: &Vec<(Vec<u8>, BencodeValue)>, key: &str) -> (r: Result<i64, MappingError>)
    ensures
        r matches Err(e) ==> error_in(Bval::Dict(entries_view(es@)), e),
        r is Ok <==> (field(Bval::Dict(entries_view(es@)), key@) matches Some(x) && x is Int),
        r matches Ok(n) ==> field(Bval::Dict(entries_view(es@)), key@) == Some(Bval::Int(n as int)),
        r matches Err(e) ==> names(e, key@) && if has_key(Bval::Dict(entries_view(es@)), key@) {
            e is WrongType
        } else {
            e is MissingKey
        },
{
    match find(es, key) {
        None => Err(MappingError::MissingKey(key_string(key))),
        Some(BencodeValue::Integer(n)) => Ok(*n),
        Some(_) => Err(MappingError::WrongType(key_string(key))),
    }
}

fn copy_bytes(b: &Vec<u8>) -> (r: Vec<u8>)
    ensures
        r@ == b@,
{
    let mut r: Vec<u8> = Vec::new();
    let mut i: usize = 0;
    while i < b.len()
        invariant
            i <= b.len(),
            r@ == b@.subrange(0, i as int),
        decreases b.len() - i,
    {
        r.push(b[i]);
        assert(r@ =~= b@.subrange(0, i + 1));
        i = i + 1;
    }
    assert(r@ =~= b@);
    r
}

/// Reads a byte-string field that must be there.
fn req_bytes(es: &Vec<(Vec<u8>, BencodeValue)>, key: &str) -> (r: Result<Vec<u8>, MappingError>)
    ensures
        r matches Err(e) ==> error_in(Bval::Dict(entries_view(es@)), e),
        r is Ok <==> (field(Bval::Dict(entries_view(es@)), key@) matches Some(x) && x is Bytes),
        r matches Ok(b) ==> field(Bval::Dict(entries_view(es@)), key@) == Some(Bval::Bytes(b@)),
        r matches Err(e) ==> names(e, key@) && if has_key(Bval::Dict(entries_view(es@)), key@) {
            e is WrongType
        } else {
            e is MissingKey
        },
{
    match find(es, key) {
        None => Err(MappingError::MissingKey(key_string(key))),
        Some(BencodeValue::ByteString(b)) => Ok(copy_bytes(b)),
        Some(_) => Err(MappingError::WrongType(key_string(key))),
    }
}

/// A list of texts, such as a file path or a tier of trackers.
pub open spec fn is_text_list(v: Bval) -> bool {
    v is List && forall|i: int| 0 <= i < v->List_0.len() ==> is_text(#[trigger] v->List_0[i])
}

/// Reads a list of texts.
fn text_list(x: &BencodeValue, key: &str) -> (r: Result<Vec<String>, MappingError>)
    ensures
        r is Ok <==> is_text_list(x@),
        r matches Ok(l) ==> text_list_is(x@, texts_view(l@)),
        r matches Err(e) ==> names(e, key@) && (e is WrongType || e is InvalidUtf8),
{
    let items = match x {
        BencodeValue::List(items) => items,
        _ => {
            return Err(MappingError::WrongType(key_string(key)));
        },
    };
    let ghost lv = list_view(items@);
    proof {
        lemma_list_view(items@);
    }
    let mut out: Vec<String> = Vec::new();
    let mut i: usize = 0;
    while i < items.len()
        invariant
            i <= items.len(),
            x@ == Bval::List(lv),
            lv.len() == items.len(),
            forall|j: int| 0 <= j < items.len() ==> #[trigger] lv[j] == items@[j].view(),
            out.len() == i,
            forall|j: int| 0 <= j < i ==> text_is(#[trigger] lv[j], out@[j]@),
            forall|j: int| 0 <= j < i ==> is_text(#[trigger] lv[j]),
        decreases items.len() - i,
    {
        match as_text(&items[i], key) {
            Ok(s) => {
                out.push(s);
            },
            Err(e) => {
                proof {
                    assert(!is_text(lv[i as int]));
                    assert(x@->List_0[i as int] == lv[i as int]);
                }
                return Err(e);
            },
        }
        i = i + 1;
    }
    assert(texts_view(out@).len() == lv.len());
    Ok(out)
}


pub open spec fn file_maps(v: Bval, f: FileEntry) -> bool {
    &&& v is Dict
    &&& field(v, "length"@) == Some(Bval::Int(f.length as int))
    &&& field(v, "path"@) matches Some(p) && text_list_is(p, texts_view(f.path@))
    &&& opt_text_is(v, "md5sum"@, f.md5sum)
}

pub open spec fn node_maps(v: Bval, n: Node) -> bool {
    &&& v is List
    &&& v->List_0.len() == 2
    &&& text_is(v->List_0[0], n.host@)
    &&& v->List_0[1] == Bval::Int(n.port as int)
}

/// `v` is a list whose items map, one by one, to `files`.
pub open spec fn files_map(v: Bval, files: Seq<FileEntry>) -> bool {
    &&& v is List
    &&& v->List_0.len() == files.len()
    &&& forall|i: int| 0 <= i < files.len() ==> file_maps(#[trigger] v->List_0[i], files[i])
}

/// The layout comes from exactly one of the keys `length` and `files`.
pub open spec fn layout_maps(iv: Bval, l: Layout) -> bool {
    match l {
        Layout::SingleFile { length } => field(iv, "length"@) == Some(Bval::Int(length as int)) && !has_key(iv, "files"@),
        Layout::MultiFile { files } => !has_key(iv, "length"@) && (field(iv, "files"@) matches Some(fl) && files_map(fl, files@)),
    }
}

pub open spec fn info_maps(iv: Bval, i: Info) -> bool {
    &&& iv is Dict
    &&& field(iv, "name"@) == Some(Bval::Bytes(encode_utf8(i.name@)))
    &&& field(iv, "piece length"@) == Some(Bval::Int(i.piece_length as int))
    &&& field(iv, "pieces"@) == Some(Bval::Bytes(i.pieces@))
    &&& layout_maps(iv, i.layout)
    &&& opt_int_is(iv, "private"@, i.private)
    &&& opt_text_is(iv, "md5sum"@, i.md5sum)
    &&& match i.path {
        None => !has_key(iv, "path"@),
        Some(p) => (field(iv, "path"@) matches Some(x) && text_list_is(x, texts_view(p@))),
    }
    &&& opt_text_is(iv, "root hash"@, i.root_hash)
}

/// Absent is no tier at all.
pub open spec fn tiers_map(v: Option<Bval>, tiers: Seq<Vec<String>>) -> bool {
    match v {
        None => tiers.len() == 0,
        Some(x) => x is List && x->List_0.len() == tiers.len() && forall|i: int|
            0 <= i < tiers.len() ==> text_list_is(#[trigger] x->List_0[i], texts_view(tiers[i]@)),
    }
}

/// Absent is no node at all.
pub open spec fn nodes_map(v: Option<Bval>, nodes: Seq<Node>) -> bool {
    match v {
        None => nodes.len() == 0,
        Some(x) => x is List && x->List_0.len() == nodes.len() && forall|i: int|
            0 <= i < nodes.len() ==> node_maps(#[trigger] x->List_0[i], nodes[i]),
    }
}

/// An optional field, when there, holds text.
pub open spec fn opt_text_ok(v: Bval, k: Seq<char>) -> bool {
    field(v, k) matches Some(x) ==> is_text(x)
}

pub open spec fn opt_int_ok(v: Bval, k: Seq<char>) -> bool {
    field(v, k) matches Some(x) ==> x is Int
}

pub open spec fn file_ok(v: Bval) -> bool {
    &&& v is Dict
    &&& field(v, "length"@) matches Some(x) && x is Int
    &&& field(v, "path"@) matches Some(x) && is_text_list(x)
    &&& opt_text_ok(v, "md5sum"@)
}

pub open spec fn node_ok(v: Bval) -> bool {
    v is List && v->List_0.len() == 2 && is_text(v->List_0[0]) && v->List_0[1] is Int
}

pub open spec fn files_ok(v: Bval) -> bool {
    v is List && forall|i: int| 0 <= i < v->List_0.len() ==> file_ok(#[trigger] v->List_0[i])
}

pub open spec fn nodes_ok(v: Option<Bval>) -> bool {
    v matches Some(x) ==> (x is List && forall|i: int| 0 <= i < x->List_0.len() ==> node_ok(#[trigger] x->List_0[i]))
}

pub open spec fn tiers_ok(v: Option<Bval>) -> bool {
    v matches Some(x) ==> (x is List && forall|i: int| 0 <= i < x->List_0.len() ==> is_text_list(#[trigger] x->List_0[i]))
}

/// An info dictionary whose every field has the shape that the schema asks for.
pub open spec fn info_ok(iv: Bval) -> bool {
    &&& iv is Dict
    &&& has_key(iv, "length"@) != has_key(iv, "files"@)
    &&& opt_int_ok(iv, "length"@)
    &&& (field(iv, "files"@) matches Some(x) ==> files_ok(x))
    &&& field(iv, "name"@) matches Some(x) && is_text(x)
    &&& field(iv, "piece length"@) matches Some(x) && x is Int
    &&& field(iv, "pieces"@) matches Some(x) && x is Bytes
    &&& opt_int_ok(iv, "private"@)
    &&& opt_text_ok(iv, "md5sum"@)
    &&& (field(iv, "path"@) matches Some(x) ==> is_text_list(x))
    &&& opt_text_ok(iv, "root hash"@)
}

/// A value tree that maps to a torrent: every field has the shape that the schema asks for.
pub open spec fn torrent_ok(v: Bval) -> bool {
    &&& v is Dict
    &&& field(v, "info"@) matches Some(iv) && info_ok(iv)
    &&& opt_text_ok(v, "announce"@)
    &&& tiers_ok(field(v, "announce-list"@))
    &&& nodes_ok(field(v, "nodes"@))
    &&& opt_int_ok(v, "creation date"@)
    &&& opt_text_ok(v, "comment"@)
    &&& opt_text_ok(v, "created by"@)
    &&& opt_text_ok(v, "encoding"@)
}

/// `e` is about a key of the dictionary `d`: a required key that is absent, or a key
/// that is there with a value of the wrong kind or with text that is not UTF-8.
pub open spec fn error_in(d: Bval, e: MappingError) -> bool {
    match e {
        MappingError::MissingKey(k) => d is Dict && !has_key(d, k@),
        MappingError::WrongType(k) => has_key(d, k@),
        MappingError::InvalidUtf8(k) => has_key(d, k@),
        _ => false,
    }
}

/// `d` is one of the dictionaries that the schema reads: the top level, the info
/// dictionary, or an entry of `files`.
pub open spec fn schema_dict(v: Bval, d: Bval) -> bool {
    ||| d == v
    ||| field(v, "info"@) == Some(d)
    ||| (field(v, "info"@) matches Some(iv) && field(iv, "files"@) matches Some(fl) && fl is List && exists|i: int|
        0 <= i < fl->List_0.len() && fl->List_0[i] == d)
}

/// Some entry under `nodes` is not a (text, integer) pair.
pub open spec fn nodes_malformed(v: Bval) -> bool {
    field(v, "nodes"@) matches Some(x) && x is List && exists|i: int|
        0 <= i < x->List_0.len() && !node_ok(#[trigger] x->List_0[i])
}

/// An error about one field.
pub open spec fn field_error(e: MappingError) -> bool {
    e is MissingKey || e is WrongType || e is InvalidUtf8 || e is MalformedNode
}

/// The info dictionary has both `length` and `files`, or neither.
pub open spec fn layout_ambiguous(v: Bval) -> bool {
    field(v, "info"@) matches Some(iv) && iv is Dict && has_key(iv, "length"@) == has_key(iv, "files"@)
}

/// `t` is what the value tree `v` says, field by field.
pub open spec fn torrent_maps(v: Bval, t: Torrent) -> bool {
    &&& v is Dict
    &&& field(v, "info"@) matches Some(iv) && info_maps(iv, t.info)
    &&& opt_text_is(v, "announce"@, t.announce)
    &&& tiers_map(field(v, "announce-list"@), t.announce_list@)
    &&& nodes_map(field(v, "nodes"@), t.nodes@)
    &&& opt_int_is(v, "creation date"@, t.creation_date)
    &&& opt_text_is(v, "comment"@, t.comment)
    &&& opt_text_is(v, "created by"@, t.created_by)
    &&& opt_text_is(v, "encoding"@, t.encoding)
}

fn map_file(x: &BencodeValue) -> (r: Result<FileEntry, MappingError>)
    ensures
        r matches Err(e) ==> error_in(x@, e) || (e is WrongType && names(e, "files"@)),
        r is Ok <==> file_ok(x@),
        r matches Err(e) ==> field_error(e),
        r matches Ok(f) ==> file_maps(x@, f),
{
    let es = match x {
        BencodeValue::Dict(es) => es,
        _ => {
            return Err(MappingError::WrongType(key_string("files")));
        },
    };
    let length = match req_int(es, "length") {
        Ok(n) => n,
        Err(e) => {
            return Err(e);
        },
    };
    let path = match find(es, "path") {
        None => {
            return Err(MappingError::MissingKey(key_string("path")));
        },
        Some(p) => match text_list(p, "path") {
            Ok(l) => l,
            Err(e) => {
                return Err(e);
            },
        },
    };
    let md5sum = match opt_text(es, "md5sum") {
        Ok(o) => o,
        Err(e) => {
            return Err(e);
        },
    };
    Ok(FileEntry { length, path, md5sum })
}

fn map_files(x: &BencodeValue) -> (r: Result<Vec<FileEntry>, MappingError>)
    ensures
        r matches Err(e) ==> (e is WrongType && names(e, "files"@)) || (x@ is List && exists|i: int|
            0 <= i < x@->List_0.len() && error_in(x@->List_0[i], e)),
        r is Ok <==> files_ok(x@),
        r matches Err(e) ==> field_error(e),
        r matches Ok(fs) ==> files_map(x@, fs@),
{
    let items = match x {
        BencodeValue::List(items) => items,
        _ => {
            return Err(MappingError::WrongType(key_string("files")));
        },
    };
    let ghost lv = list_view(items@);
    proof {
        lemma_list_view(items@);
    }
    let mut out: Vec<FileEntry> = Vec::new();
    let mut i: usize = 0;
    while i < items.len()
        invariant
            i <= items.len(),
            x@ == Bval::List(lv),
            lv.len() == items.len(),
            forall|j: int| 0 <= j < items.len() ==> #[trigger] lv[j] == items@[j].view(),
            out.len() == i,
            forall|j: int| 0 <= j < i ==> file_maps(#[trigger] lv[j], out@[j]),
            forall|j: int| 0 <= j < i ==> file_ok(#[trigger] lv[j]),
        decreases items.len() - i,
    {
        match map_file(&items[i]) {
            Ok(f) => {
                out.push(f);
            },
            Err(e) => {
                proof {
                    assert(x@->List_0[i as int] == lv[i as int]);
                }
                return Err(e);
            },
        }
        i = i + 1;
    }
    Ok(out)
}

fn map_node(x: &BencodeValue) -> (r: Result<Node, MappingError>)
    ensures
        r matches Err(e) ==> e is MalformedNode || (e is InvalidUtf8 && names(e, "nodes"@)),
        r matches Err(e) ==> field_error(e),
        r matches Ok(n) ==> node_maps(x@, n),
        r is Ok <==> (x@ is List && x@->List_0.len() == 2 && is_text(x@->List_0[0]) && x@->List_0[1] is Int),
{
    let items = match x {
        BencodeValue::List(items) => items,
        _ => {
            return Err(MappingError::MalformedNode);
        },
    };
    proof {
        lemma_list_view(items@);
    }
    if items.len() != 2 {
        return Err(MappingError::MalformedNode);
    }
    let port = match &items[1] {
        BencodeValue::Integer(p) => *p,
        _ => {
            return Err(MappingError::MalformedNode);
        },
    };
    let host = match &items[0] {
        BencodeValue::ByteString(_) => match as_text(&items[0], "nodes") {
            Ok(h) => h,
            Err(e) => {
                return Err(e);
            },
        },
        _ => {
            return Err(MappingError::MalformedNode);
        },
    };
    Ok(Node { host, port })
}

fn map_nodes(x: Option<&BencodeValue>) -> (r: Result<Vec<Node>, MappingError>)
    ensures
        r matches Err(e) ==> ((e is WrongType || e is InvalidUtf8) && names(e, "nodes"@)) || (e is MalformedNode && (x matches Some(
            y,
        ) && y@ is List && exists|i: int| 0 <= i < y@->List_0.len() && !node_ok(#[trigger] y@->List_0[i]))),
        r is Ok <==> nodes_ok(
            match x {
                Some(v) => Some(v@),
                None => None,
            },
        ),
        r matches Err(e) ==> field_error(e),
        r matches Ok(ns) ==> nodes_map(
            match x {
                Some(v) => Some(v@),
                None => None,
            },
            ns@,
        ),
{
    let items = match x {
        None => {
            return Ok(Vec::new());
        },
        Some(BencodeValue::List(items)) => items,
        Some(_) => {
            return Err(MappingError::WrongType(key_string("nodes")));
        },
    };
    let ghost lv = list_view(items@);
    proof {
        lemma_list_view(items@);
    }
    let mut out: Vec<Node> = Vec::new();
    let mut i: usize = 0;
    while i < items.len()
        invariant
            i <= items.len(),
            x.unwrap()@ == Bval::List(lv),
            x is Some,
            lv.len() == items.len(),
            forall|j: int| 0 <= j < items.len() ==> #[trigger] lv[j] == items@[j].view(),
            out.len() == i,
            forall|j: int| 0 <= j < i ==> node_maps(#[trigger] lv[j], out@[j]),
            forall|j: int| 0 <= j < i ==> node_ok(#[trigger] lv[j]),
        decreases items.len() - i,
    {
        match map_node(&items[i]) {
            Ok(n) => {
                out.push(n);
            },
            Err(e) => {
                proof {
                    assert(x.unwrap()@->List_0[i as int] == lv[i as int]);
                }
                return Err(e);
            },
        }
        i = i + 1;
    }
    Ok(out)
}

fn map_tiers(x: Option<&BencodeValue>) -> (r: Result<Vec<Vec<String>>, MappingError>)
    ensures
        r matches Err(e) ==> (e is WrongType || e is InvalidUtf8) && names(e, "announce-list"@),
        r is Ok <==> tiers_ok(
            match x {
                Some(v) => Some(v@),
                None => None,
            },
        ),
        r matches Err(e) ==> field_error(e),
        r matches Ok(ts) ==> tiers_map(
            match x {
                Some(v) => Some(v@),
                None => None,
            },
            ts@,
        ),
{
    let items = match x {
        None => {
            return Ok(Vec::new());
        },
        Some(BencodeValue::List(items)) => items,
        Some(_) => {
            return Err(MappingError::WrongType(key_string("announce-list")));
        },
    };
    let ghost lv = list_view(items@);
    proof {
        lemma_list_view(items@);
    }
    let mut out: Vec<Vec<String>> = Vec::new();
    let mut i: usize = 0;
    while i < items.len()
        invariant
            i <= items.len(),
            x.unwrap()@ == Bval::List(lv),
            x is Some,
            lv.len() == items.len(),
            forall|j: int| 0 <= j < items.len() ==> #[trigger] lv[j] == items@[j].view(),
            out.len() == i,
            forall|j: int| 0 <= j < i ==> text_list_is(#[trigger] lv[j], texts_view(out@[j]@)),
            forall|j: int| 0 <= j < i ==> is_text_list(#[trigger] lv[j]),
        decreases items.len() - i,
    {
        match text_list(&items[i], "announce-list") {
            Ok(t) => {
                out.push(t);
            },
            Err(e) => {
                proof {
                    assert(x.unwrap()@->List_0[i as int] == lv[i as int]);
                }
                return Err(e);
            },
        }
        i = i + 1;
    }
    Ok(out)
}


fn map_info(es: &Vec<(Vec<u8>, BencodeValue)>) -> (r: Result<Info, MappingError>)
    ensures
        r matches Err(e) ==> e is AmbiguousLayout || error_in(Bval::Dict(entries_view(es@)), e) || (field(
            Bval::Dict(entries_view(es@)),
            "files"@,
        ) matches Some(fl) && fl is List && exists|i: int| 0 <= i < fl->List_0.len() && error_in(fl->List_0[i], e)),
        r is Ok <==> info_ok(Bval::Dict(entries_view(es@))),
        r matches Err(e) ==> field_error(e) || e is AmbiguousLayout,
        r matches Ok(i) ==> info_maps(Bval::Dict(entries_view(es@)), i),
        r matches Err(MappingError::AmbiguousLayout) <==> has_key(Bval::Dict(entries_view(es@)), "length"@) == has_key(
            Bval::Dict(entries_view(es@)),
            "files"@,
        ),
{
    let layout = match (find(es, "length"), find(es, "files")) {
        (Some(BencodeValue::Integer(n)), None) => Layout::SingleFile { length: *n },
        (Some(_), None) => {
            return Err(MappingError::WrongType(key_string("length")));
        },
        (None, Some(fv)) => match map_files(fv) {
            Ok(files) => Layout::MultiFile { files },
            Err(e) => {
                return Err(e);
            },
        },
        _ => {
            return Err(MappingError::AmbiguousLayout);
        },
    };
    let name = match req_text(es, "name") {
        Ok(s) => s,
        Err(e) => {
            return Err(e);
        },
    };
    let piece_length = match req_int(es, "piece length") {
        Ok(n) => n,
        Err(e) => {
            return Err(e);
        },
    };
    let pieces = match req_bytes(es, "pieces") {
        Ok(b) => b,
        Err(e) => {
            return Err(e);
        },
    };
    let private = match opt_int(es, "private") {
        Ok(o) => o,
        Err(e) => {
            return Err(e);
        },
    };
    let md5sum = match opt_text(es, "md5sum") {
        Ok(o) => o,
        Err(e) => {
            return Err(e);
        },
    };
    let path = match find(es, "path") {
        None => None,
        Some(p) => match text_list(p, "path") {
            Ok(l) => Some(l),
            Err(e) => {
                return Err(e);
            },
        },
    };
    let root_hash = match opt_text(es, "root hash") {
        Ok(o) => o,
        Err(e) => {
            return Err(e);
        },
    };
    Ok(Info { name, piece_length, pieces, layout, private, md5sum, path, root_hash })
}

/// Reads a decoded value tree as a metainfo file.
pub fn map_torrent(v: &BencodeValue) -> (r: Result<Torrent, MappingError>)
    ensures
        r matches Err(e) ==> (e is MalformedNode ==> nodes_malformed(v@)),
        r matches Err(e) ==> ((e is MissingKey || e is WrongType || e is InvalidUtf8) ==> exists|d: Bval|
            schema_dict(v@, d) && error_in(d, e)),
        r is Ok <==> torrent_ok(v@),
        r matches Ok(t) ==> torrent_maps(v@, t),
        r matches Err(MappingError::NotADictionary) <==> !(v@ is Dict),
        v@ is Dict && !has_key(v@, "info"@) ==> (r matches Err(e) && e is MissingKey && names(e, "info"@)),
        (field(v@, "info"@) matches Some(iv) && !(iv is Dict)) ==> (r matches Err(e) && e is WrongType && names(e, "info"@)),
        r matches Err(MappingError::AmbiguousLayout) <==> layout_ambiguous(v@),
{
    let es = match v {
        BencodeValue::Dict(es) => es,
        _ => {
            return Err(MappingError::NotADictionary);
        },
    };
    let info = match find(es, "info") {
        None => {
            let e = MappingError::MissingKey(key_string("info"));
            assert(schema_dict(v@, v@) && error_in(v@, e));
            return Err(e);
        },
        Some(BencodeValue::Dict(ies)) => match map_info(ies) {
            Ok(i) => i,
            Err(e) => {
                return Err(e);
            },
        },
        Some(_) => {
            let e = MappingError::WrongType(key_string("info"));
            assert(schema_dict(v@, v@) && error_in(v@, e));
            return Err(e);
        },
    };
    let announce = match opt_text(es, "announce") {
        Ok(o) => o,
        Err(e) => {
            return Err(e);
        },
    };
    let found = find(es, "announce-list");
    let announce_list = match map_tiers(found) {
        Ok(t) => t,
        Err(e) => {
            assert(found is Some);
            assert(e is MalformedNode || error_in(v@, e));
            assert(schema_dict(v@, v@));
            return Err(e);
        },
    };
    let found = find(es, "nodes");
    let nodes = match map_nodes(found) {
        Ok(n) => n,
        Err(e) => {
            assert(found is Some);
            assert(e is MalformedNode || error_in(v@, e));
            assert(schema_dict(v@, v@));
            return Err(e);
        },
    };
    let creation_date = match opt_int(es, "creation date") {
        Ok(o) => o,
        Err(e) => {
            return Err(e);
        },
    };
    let comment = match opt_text(es, "comment") {
        Ok(o) => o,
        Err(e) => {
            return Err(e);
        },
    };
    let created_by = match opt_text(es, "created by") {
        Ok(o) => o,
        Err(e) => {
            return Err(e);
        },
    };
    let encoding = match opt_text(es, "encoding") {
        Ok(o) => o,
        Err(e) => {
            return Err(e);
        },
    };
    Ok(Torrent { announce, info, announce_list, nodes, creation_date, comment, created_by, encoding })
}

} // verus!
