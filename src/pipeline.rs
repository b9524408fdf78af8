use vstd::prelude::*;
use crate::bencode::{decode, decode_spec, encode_spec, lemma_decoded_round_trip, Bval, DecodeError};
use crate::metainfo::{
    error_in, layout_ambiguous, map_torrent, nodes_malformed, schema_dict, torrent_maps, torrent_ok, MappingError,
    Torrent,
};
use crate::validate::{lemma_validation_determined, validate, validation, ValidationError};

verus! {

/// The first failure of any stage.
#[derive(Debug, PartialEq, Eq)]
pub enum PipelineError {
    Decode(DecodeError),
    Mapping(MappingError),
    Validation(ValidationError),
}

/// What the boundary reports: the torrent, or why there is none.
#[derive(Debug, PartialEq, Eq)]
pub enum TorrentResponse {
    Success(Torrent),
    Fail(String),
}

/// Bytes decode to `v`, which maps to `t`, which passes every check.
pub open spec fn accepted(bytes: Seq<u8>, t: Torrent) -> bool {
    decode_spec(bytes) matches Ok(v) && torrent_maps(v, t) && validation(t) is Ok
}

/// The buffer decodes, the tree maps, and the torrent passes every check.
pub open spec fn valid_upload(bytes: Seq<u8>) -> bool {
    decode_spec(bytes) matches Ok(v) && torrent_ok(v) && forall|t: Torrent|
        torrent_maps(v, t) ==> validation(t) is Ok
}

/// `e` is a failure that the pipeline may report on `bytes`: a decode error is the
/// grammar's own, a mapping error names what is wrong in the tree, and a validation
/// error is the first check that the mapped torrent fails.
pub open spec fn fails_with(bytes: Seq<u8>, e: PipelineError) -> bool {
    match e {
        PipelineError::Decode(d) => decode_spec(bytes) == Err::<Bval, DecodeError>(d),
        PipelineError::Mapping(m) => decode_spec(bytes) matches Ok(v) && !torrent_ok(v) && match m {
            MappingError::NotADictionary => !(v is Dict),
            MappingError::AmbiguousLayout => layout_ambiguous(v),
            MappingError::MalformedNode => nodes_malformed(v),
            _ => exists|d: Bval| schema_dict(v, d) && error_in(d, m),
        },
        PipelineError::Validation(x) => decode_spec(bytes) matches Ok(v) && torrent_ok(v) && exists|t: Torrent|
            torrent_maps(v, t) && validation(t) == Err::<(), ValidationError>(x),
    }
}

/// Decodes, maps and checks a metainfo buffer, stopping at the first failure.
pub fn process(bytes: &Vec<u8>) -> (r: Result<Torrent, PipelineError>)
    ensures
        r matches Ok(t) ==> accepted(bytes@, t),
        r is Ok <==> valid_upload(bytes@),
        r matches Err(e) ==> fails_with(bytes@, e),
        decode_spec(bytes@) matches Err(d) ==> (r matches Err(PipelineError::Decode(x)) && x == d),
        r matches Err(PipelineError::Decode(_)) ==> decode_spec(bytes@) is Err,
        (r matches Err(PipelineError::Mapping(_))) <==> (decode_spec(bytes@) matches Ok(v) && !torrent_ok(v)),
        (r matches Err(PipelineError::Mapping(MappingError::NotADictionary))) <==> (decode_spec(bytes@) matches Ok(v) && !(v is Dict)),
        (r matches Err(PipelineError::Mapping(MappingError::AmbiguousLayout))) <==> (decode_spec(bytes@) matches Ok(v) && layout_ambiguous(v)),
        r matches Err(PipelineError::Validation(e)) ==> (decode_spec(bytes@) matches Ok(v) && exists|t: Torrent|
            torrent_maps(v, t) && validation(t) == Err::<(), ValidationError>(e)),
{
    let v = match decode(bytes) {
        Ok(v) => v,
        Err(e) => {
            return Err(PipelineError::Decode(e));
        },
    };
    let t = match map_torrent(&v) {
        Ok(t) => t,
        Err(e) => {
            return Err(PipelineError::Mapping(e));
        },
    };
    proof {
        assert forall|t2: Torrent| torrent_maps(v@, t2) implies validation(t2) == validation(t) by {
            lemma_validation_determined(v@, t, t2);
        }
    }
    match validate(&t) {
        Ok(()) => Ok(t),
        Err(e) => Err(PipelineError::Validation(e)),
    }
}

pub open spec fn decode_text(e: DecodeError) -> Seq<char> {
    match e {
        DecodeError::UnexpectedEof => "unexpected end of input"@,
        DecodeError::InvalidInteger => "invalid integer"@,
        DecodeError::InvalidLength => "invalid byte string length"@,
        DecodeError::DuplicateKey => "duplicate dictionary key"@,
        DecodeError::UnterminatedContainer => "unterminated list or dictionary"@,
        DecodeError::TrailingData => "trailing data after the value"@,
        DecodeError::NestingTooDeep => "containers nested too deep"@,
    }
}

pub open spec fn mapping_text(e: MappingError) -> Seq<char> {
    match e {
        MappingError::NotADictionary => "top level is not a dictionary"@,
        MappingError::MissingKey(k) => "missing key: "@ + k@,
        MappingError::WrongType(k) => "wrong type for key: "@ + k@,
        MappingError::InvalidUtf8(k) => "invalid UTF-8 text under key: "@ + k@,
        MappingError::AmbiguousLayout => "info must hold exactly one of length and files"@,
        MappingError::MalformedNode => "a node is not a host and port pair"@,
    }
}

pub open spec fn validation_text(e: ValidationError) -> Seq<char> {
    match e {
        ValidationError::PieceLengthNotPositive => "piece length is not positive"@,
        ValidationError::PiecesNotMultipleOfDigest => "pieces is not a multiple of 20 bytes"@,
        ValidationError::NegativeLength => "negative file length"@,
        ValidationError::NoFiles => "files is empty"@,
        ValidationError::EmptyPath => "a file path is empty"@,
        ValidationError::EmptyPathSegment => "a file path has an empty segment"@,
    }
}

/// The one diagnostic line that any failure becomes.
pub open spec fn diagnostic(e: PipelineError) -> Seq<char> {
    "Failed to parse torrent: "@ + match e {
        PipelineError::Decode(d) => decode_text(d),
        PipelineError::Mapping(m) => mapping_text(m),
        PipelineError::Validation(v) => validation_text(v),
    }
}

/// Relies on std's `String::push_str`: the characters of `b` are added at the end.
#[verifier::external_body]
fn append(a: &mut String, b: &str)
    ensures
        final(a)@ == old(a)@ + b@,
{
    a.push_str(b)
}

fn text(s: &str) -> (r: String)
    ensures
        r@ == s@,
{
    s.to_owned()
}

fn keyed(prefix: &str, k: &String) -> (r: String)
    ensures
        r@ == prefix@ + k@,
{
    let mut r = text(prefix);
    append(&mut r, k.as_str());
    r
}

/// Renders a failure as text.
pub fn describe(e: &PipelineError) -> (r: String)
    ensures
        r@ == diagnostic(*e),
{
    let detail = match e {
        PipelineError::Decode(d) => match d {
            DecodeError::UnexpectedEof => text("unexpected end of input"),
            DecodeError::InvalidInteger => text("invalid integer"),
            DecodeError::InvalidLength => text("invalid byte string length"),
            DecodeError::DuplicateKey => text("duplicate dictionary key"),
            DecodeError::UnterminatedContainer => text("unterminated list or dictionary"),
            DecodeError::TrailingData => text("trailing data after the value"),
            DecodeError::NestingTooDeep => text("containers nested too deep"),
        },
        PipelineError::Mapping(m) => match m {
            MappingError::NotADictionary => text("top level is not a dictionary"),
            MappingError::MissingKey(k) => keyed("missing key: ", k),
            MappingError::WrongType(k) => keyed("wrong type for key: ", k),
            MappingError::InvalidUtf8(k) => keyed("invalid UTF-8 text under key: ", k),
            MappingError::AmbiguousLayout => text("info must hold exactly one of length and files"),
            MappingError::MalformedNode => text("a node is not a host and port pair"),
        },
        PipelineError::Validation(v) => match v {
            ValidationError::PieceLengthNotPositive => text("piece length is not positive"),
            ValidationError::PiecesNotMultipleOfDigest => text("pieces is not a multiple of 20 bytes"),
            ValidationError::NegativeLength => text("negative file length"),
            ValidationError::NoFiles => text("files is empty"),
            ValidationError::EmptyPath => text("a file path is empty"),
            ValidationError::EmptyPathSegment => text("a file path has an empty segment"),
        },
    };
    let mut r = text("Failed to parse torrent: ");
    append(&mut r, detail.as_str());
    r
}

/// Collapses an outcome into one of the two boundary shapes.
pub fn project(outcome: Result<Torrent, PipelineError>) -> (r: TorrentResponse)
    ensures
        match outcome {
            Ok(t) => r == TorrentResponse::Success(t),
            Err(e) => r matches TorrentResponse::Fail(m) && m@ == diagnostic(e),
        },
{
    match outcome {
        Ok(t) => TorrentResponse::Success(t),
        Err(e) => TorrentResponse::Fail(describe(&e)),
    }
}

/// Each `/` turned into a fullwidth solidus, so that a name stays one path segment.
pub open spec fn safe_name(s: Seq<char>) -> Seq<char> {
    s.map_values(|c: char| if c == '/' { '\u{FF0F}' } else { c })
}

/// Relies on std's `str::replace`: each `/` becomes a fullwidth solidus, all else stays.
#[verifier::external_body]
fn replace_slashes(s: &str) -> (r: String)
    ensures
        r@ == safe_name(s@),
{
    s.replace("/", "\u{FF0F}")
}

/// The file name under which an accepted torrent's bytes are kept.
pub fn storage_name(t: &Torrent) -> (r: String)
    ensures
        r@ == safe_name(t.info.name@) + ".torrent"@,
{
    let mut r = replace_slashes(t.info.name.as_str());
    append(&mut r, ".torrent");
    r
}

/// Runs the whole pipeline on an uploaded buffer.
pub fn respond(bytes: &Vec<u8>) -> (r: TorrentResponse)
    ensures
        r is Success <==> valid_upload(bytes@),
        r matches TorrentResponse::Fail(m) ==> exists|e: PipelineError| fails_with(bytes@, e) && m@ == diagnostic(e),
        r matches TorrentResponse::Success(t) ==> accepted(bytes@, t),
        r is Success ==> (decode_spec(bytes@) matches Ok(v) && torrent_ok(v)),
        decode_spec(bytes@) matches Err(d) ==> (r matches TorrentResponse::Fail(m) && m@ == diagnostic(PipelineError::Decode(d))),
        (decode_spec(bytes@) matches Ok(v) && !(v is Dict)) ==> (r matches TorrentResponse::Fail(m) && m@ == diagnostic(
            PipelineError::Mapping(MappingError::NotADictionary),
        )),
        (decode_spec(bytes@) matches Ok(v) && layout_ambiguous(v)) ==> (r matches TorrentResponse::Fail(m) && m@ == diagnostic(
            PipelineError::Mapping(MappingError::AmbiguousLayout),
        )),
{
    let outcome = process(bytes);
    let ghost o = outcome;
    let r = project(outcome);
    proof {
        if let Err(e) = o {
            assert(fails_with(bytes@, e));
        }
    }
    r
}

/// A buffer that decodes, and its canonical re-encoding, meet the same outcome:
/// both are accepted or neither, and they can fail in the same ways.
pub proof fn lemma_reencoding_same_outcome(bytes: Seq<u8>)
    requires
        decode_spec(bytes) is Ok,
    ensures
        valid_upload(encode_spec(decode_spec(bytes)->Ok_0)) == valid_upload(bytes),
        forall|e: PipelineError| fails_with(encode_spec(decode_spec(bytes)->Ok_0), e) == fails_with(bytes, e),
{
    lemma_decoded_round_trip(bytes);
}

} // verus!
