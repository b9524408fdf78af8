use vstd::prelude::*;
use vstd::utf8::{encode_utf8_decode_utf8};
use crate::bencode::Bval;
use crate::metainfo::{file_maps, field, text_is, texts_view, torrent_maps, FileEntry, Layout, Torrent};

verus! {

/// Length in bytes of one piece digest.
pub const DIGEST_LEN: usize = 20;

/// Which semantic check a mapped torrent failed.
#[derive(Debug, Clone, Copy, PartialEq, Eq, Structural)]
pub enum ValidationError {
    PieceLengthNotPositive,
    PiecesNotMultipleOfDigest,
    NegativeLength,
    NoFiles,
    EmptyPath,
    EmptyPathSegment,
}

/// The first check that a file fails, if any.
pub open spec fn file_check(f: FileEntry) -> Option<ValidationError> {
    if f.length < 0 {
        Some(ValidationError::NegativeLength)
    } else if f.path.len() == 0 {
        Some(ValidationError::EmptyPath)
    } else if exists|i: int| 0 <= i < f.path.len() && (#[trigger] f.path@[i])@.len() == 0 {
        Some(ValidationError::EmptyPathSegment)
    } else {
        None
    }
}

/// The first check that a file of `fs` fails, in order.
pub open spec fn files_check(fs: Seq<FileEntry>) -> Result<(), ValidationError>
    decreases fs.len(),
{
    if fs.len() == 0 {
        Ok(())
    } else {
        match file_check(fs[0]) {
            Some(e) => Err(e),
            None => files_check(fs.subrange(1, fs.len() as int)),
        }
    }
}

/// The outcome of the checks, in their fixed order: piece length, pieces, then layout.
pub open spec fn validation(t: Torrent) -> Result<(), ValidationError> {
    if t.info.piece_length <= 0 {
        Err(ValidationError::PieceLengthNotPositive)
    } else if t.info.pieces.len() % 20 != 0 {
        Err(ValidationError::PiecesNotMultipleOfDigest)
    } else {
        match t.info.layout {
            Layout::SingleFile { length } => if length < 0 {
                Err(ValidationError::NegativeLength)
            } else {
                Ok(())
            },
            Layout::MultiFile { files } => if files.len() == 0 {
                Err(ValidationError::NoFiles)
            } else {
                files_check(files@)
            },
        }
    }
}

fn check_file(f: &FileEntry) -> (r: Option<ValidationError>)
    ensures
        r == file_check(*f),
{
    if f.length < 0 {
        return Some(ValidationError::NegativeLength);
    }
    if f.path.len() == 0 {
        return Some(ValidationError::EmptyPath);
    }
    let mut i: usize = 0;
    while i < f.path.len()
        invariant
            i <= f.path.len(),
            f.length >= 0,
            forall|j: int| 0 <= j < i ==> (#[trigger] f.path@[j])@.len() != 0,
        decreases f.path.len() - i,
    {
        if f.path[i].as_str().is_empty() {
            assert((f.path@[i as int])@.len() == 0);
            return Some(ValidationError::EmptyPathSegment);
        }
        i = i + 1;
    }
    None
}

/// Checks the invariants that a metainfo file must meet, and names the first one broken.
pub fn validate(t: &Torrent) -> (r: Result<(), ValidationError>)
    ensures
        r == validation(*t),
{
    if t.info.piece_length <= 0 {
        return Err(ValidationError::PieceLengthNotPositive);
    }
    if t.info.pieces.len() % DIGEST_LEN != 0 {
        return Err(ValidationError::PiecesNotMultipleOfDigest);
    }
    match &t.info.layout {
        Layout::SingleFile { length } => if *length < 0 {
            Err(ValidationError::NegativeLength)
        } else {
            Ok(())
        },
        Layout::MultiFile { files } => {
            if files.len() == 0 {
                return Err(ValidationError::NoFiles);
            }
            let mut i: usize = 0;
            assert(files@.subrange(0, files@.len() as int) =~= files@);
            while i < files.len()
                invariant
                    i <= files.len(),
                    t.info.layout == (Layout::MultiFile { files: *files }),
                    t.info.piece_length > 0,
                    t.info.pieces.len() % 20 == 0,
                    files.len() > 0,
                    files_check(files@) == files_check(files@.subrange(i as int, files@.len() as int)),
                decreases files.len() - i,
            {
                let ghost rest = files@.subrange(i as int, files@.len() as int);
                assert(rest.subrange(1, rest.len() as int) =~= files@.subrange(i + 1, files@.len() as int));
                assert(rest[0] == files@[i as int]);
                match check_file(&files[i]) {
                    Some(e) => {
                        return Err(e);
                    },
                    None => {},
                }
                i = i + 1;
            }
            Ok(())
        },
    }
}

/// The number of piece digests that `pieces` holds.
pub fn piece_count(t: &Torrent) -> (r: usize)
    ensures
        r == t.info.pieces.len() / 20,
{
    t.info.pieces.len() / DIGEST_LEN
}


proof fn lemma_file_check_same(x: Bval, f: FileEntry, g: FileEntry)
    requires
        file_maps(x, f),
        file_maps(x, g),
    ensures
        file_check(f) == file_check(g),
{
    let p = field(x, "path"@)->Some_0;
    assert(texts_view(f.path@).len() == texts_view(g.path@).len());
    assert forall|i: int| 0 <= i < f.path.len() implies (#[trigger] f.path@[i])@ == g.path@[i]@ by {
        assert(texts_view(f.path@)[i] == f.path@[i]@);
        assert(texts_view(g.path@)[i] == g.path@[i]@);
        assert(text_is(p->List_0[i], f.path@[i]@));
        assert(text_is(p->List_0[i], g.path@[i]@));
        encode_utf8_decode_utf8(f.path@[i]@);
        encode_utf8_decode_utf8(g.path@[i]@);
    }
    if exists|i: int| 0 <= i < f.path.len() && (#[trigger] f.path@[i])@.len() == 0 {
        let i = choose|i: int| 0 <= i < f.path.len() && (#[trigger] f.path@[i])@.len() == 0;
        assert(g.path@[i]@.len() == 0);
    }
    if exists|i: int| 0 <= i < g.path.len() && (#[trigger] g.path@[i])@.len() == 0 {
        let i = choose|i: int| 0 <= i < g.path.len() && (#[trigger] g.path@[i])@.len() == 0;
        assert(f.path@[i]@.len() == 0);
    }
}

proof fn lemma_files_check_same(a: Seq<FileEntry>, b: Seq<FileEntry>)
    requires
        a.len() == b.len(),
        forall|i: int| 0 <= i < a.len() ==> file_check(#[trigger] a[i]) == file_check(b[i]),
    ensures
        files_check(a) == files_check(b),
    decreases a.len(),
{
    if a.len() > 0 {
        let a1 = a.subrange(1, a.len() as int);
        let b1 = b.subrange(1, b.len() as int);
        assert(file_check(a[0]) == file_check(b[0]));
        assert forall|i: int| 0 <= i < a1.len() implies file_check(#[trigger] a1[i]) == file_check(b1[i]) by {
            assert(a1[i] == a[i + 1] && b1[i] == b[i + 1]);
        }
        lemma_files_check_same(a1, b1);
    }
}

/// The checks give one outcome for every torrent that a value tree maps to: the
/// outcome depends on the input alone.
pub proof fn lemma_validation_determined(v: Bval, t1: Torrent, t2: Torrent)
    requires
        torrent_maps(v, t1),
        torrent_maps(v, t2),
    ensures
        validation(t1) == validation(t2),
{
    let iv = field(v, "info"@)->Some_0;
    assert(t1.info.pieces@ == t2.info.pieces@);
    match (t1.info.layout, t2.info.layout) {
        (Layout::MultiFile { files: f1 }, Layout::MultiFile { files: f2 }) => {
            let l = field(iv, "files"@)->Some_0->List_0;
            assert forall|i: int| 0 <= i < f1@.len() implies file_check(#[trigger] f1@[i]) == file_check(f2@[i]) by {
                lemma_file_check_same(l[i], f1@[i], f2@[i]);
            }
            lemma_files_check_same(f1@, f2@);
        },
        _ => {},
    }
}

} // verus!
