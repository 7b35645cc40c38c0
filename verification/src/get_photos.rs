//! Photo discovery: walks a source location, filters to supported image
//! extensions, and returns the paths in ascending lexicographic order.
//!
//! A single-file source is validated strictly; a directory is walked
//! leniently, skipping whatever fails validation.  The resulting order is
//! load-bearing: it is how files are paired with exposure rows.

use vstd::prelude::*;

verus! {

use crate::text::{lemma_lex_total_ordering, lex_leq_fn, sort_paths, views_of};
use vstd::relations::sorted_by;
use vstd::seq_lib::lemma_sorted_unique;

/// One file-system entry seen while walking the source location.
pub struct WalkEntry {
    /// The path as text; absent when it is not representable as text.
    pub path: Option<String>,
    pub is_dir: bool,
    pub is_file: bool,
    /// An error met while reading the entry or its metadata.
    pub meta_err: Option<String>,
}

#[derive(Debug)]
pub enum Error {
    Metadata { message: String },
    NoExtension { entry: String },
    InvalidExtension,
    InvalidFile,
}

/// The part of a path after its last slash.
pub open spec fn file_name_of(p: Seq<char>) -> Seq<char>
    decreases p.len(),
{
    if p.len() == 0 {
        p
    } else if p.last() == '/' {
        Seq::empty()
    } else {
        file_name_of(p.drop_last()).push(p.last())
    }
}

/// The extension of a file name: what follows its last dot, provided that
/// dot is not the leading character.
pub open spec fn extension_of(name: Seq<char>) -> Option<Seq<char>>
    decreases name.len(),
{
    if name.len() <= 1 {
        None
    } else if name.last() == '.' {
        Some(Seq::empty())
    } else {
        match extension_of(name.drop_last()) {
            Some(e) => Some(e.push(name.last())),
            None => None,
        }
    }
}

/// Case-insensitive match of ASCII text against a lower-case pattern.
pub open spec fn matches_ci(e: Seq<char>, l: Seq<char>) -> bool {
    e.len() == l.len() && forall|i: int|
        0 <= i < e.len() ==> (#[trigger] e[i] == l[i] || (e[i] as u32) + 32 == (l[i] as u32))
}

/// The fixed allow-list of photo extensions, case-insensitively.
pub open spec fn is_supported_ext(e: Seq<char>) -> bool {
    ||| matches_ci(e, seq!['t', 'i', 'f', 'f'])
    ||| matches_ci(e, seq!['j', 'p', 'e', 'g'])
    ||| matches_ci(e, seq!['j', 'p', 'g'])
    ||| matches_ci(e, seq!['p', 'n', 'g'])
}

/// Whether an entry passes validation: readable, text path, a regular file
/// with a supported extension.
pub open spec fn entry_is_photo(e: WalkEntry) -> bool {
    &&& e.meta_err is None
    &&& e.path is Some
    &&& e.is_file
    &&& extension_of(file_name_of(e.path->0@)) matches Some(x) && is_supported_ext(x)
}

/// Which discovery error a failed entry draws.
pub open spec fn classification_error(e: WalkEntry, err: Error) -> bool {
    if e.meta_err is Some {
        err matches Error::Metadata { message } && message@ == e.meta_err->0@
    } else if e.path is None {
        err is InvalidFile
    } else if extension_of(file_name_of(e.path->0@)) is None {
        err matches Error::NoExtension { entry } && entry@ == e.path->0@
    } else {
        err is InvalidExtension
    }
}

/// The photo paths of a walked directory, in walk order.
pub open spec fn dir_photos(entries: Seq<WalkEntry>) -> Seq<Seq<char>>
    decreases entries.len(),
{
    if entries.len() == 0 {
        Seq::empty()
    } else {
        dir_photos(entries.drop_last()) + (if !entries.last().is_dir && entry_is_photo(
            entries.last(),
        ) {
            seq![entries.last().path->0@]
        } else {
            Seq::empty()
        })
    }
}

/// A path whose file name carries a supported extension.
pub open spec fn path_is_photo_text(p: Seq<char>) -> bool {
    extension_of(file_name_of(p)) matches Some(x) && is_supported_ext(x)
}

/// Every path a directory walk selects carries a supported extension.
pub proof fn lemma_dir_photos_supported(entries: Seq<WalkEntry>)
    ensures
        forall|i: int| 0 <= i < dir_photos(entries).len() ==> path_is_photo_text(
            #[trigger] dir_photos(entries)[i],
        ),
    decreases entries.len(),
{
    if entries.len() > 0 {
        lemma_dir_photos_supported(entries.drop_last());
        assert forall|i: int| 0 <= i < dir_photos(entries).len() implies path_is_photo_text(
            #[trigger] dir_photos(entries)[i],
        ) by {
            if i < dir_photos(entries.drop_last()).len() {
                assert(dir_photos(entries)[i] == dir_photos(entries.drop_last())[i]);
            }
        }
    }
}

/// A directory walk selects exactly the entries that pass validation: as
/// many paths as there are non-directory entries that validate as photos.
pub proof fn lemma_dir_photos_count(entries: Seq<WalkEntry>)
    ensures
        dir_photos(entries).len() == entries.filter(
            |e: WalkEntry| !e.is_dir && entry_is_photo(e),
        ).len(),
    decreases entries.len(),
{
    reveal(Seq::filter);
    if entries.len() > 0 {
        lemma_dir_photos_count(entries.drop_last());
    }
}

/// A directory with N validating files among its entries yields exactly N
/// paths: sorting the listing changes nothing of the count.
pub proof fn lemma_sorted_photo_count(entries: Seq<WalkEntry>)
    ensures
        dir_photos(entries).sort_by(lex_leq_fn()).len() == entries.filter(
            |e: WalkEntry| !e.is_dir && entry_is_photo(e),
        ).len(),
{
    lemma_lex_total_ordering();
    dir_photos(entries).lemma_sort_by_ensures(lex_leq_fn());
    vstd::seq_lib::to_multiset_len(dir_photos(entries));
    vstd::seq_lib::to_multiset_len(dir_photos(entries).sort_by(lex_leq_fn()));
    lemma_dir_photos_count(entries);
}

/// The file name as last-slash characterization: nothing at or after `ns`
/// is a slash, and `ns` is either the start or preceded by one.
proof fn lemma_file_name_at(p: Seq<char>, ns: int)
    requires
        0 <= ns <= p.len(),
        forall|k: int| ns <= k < p.len() ==> p[k] != '/',
        ns == 0 || p[ns - 1] == '/',
    ensures
        file_name_of(p) == p.skip(ns),
    decreases p.len(),
{
    if p.len() == 0 {
        assert(p.skip(0) =~= p);
    } else if p.last() == '/' {
        assert(ns == p.len());
        assert(p.skip(ns) =~= Seq::<char>::empty());
    } else {
        if ns == p.len() {
            assert(p[ns - 1] == '/');
            assert(false);
        }
        lemma_file_name_at(p.drop_last(), ns);
        assert(file_name_of(p) =~= p.drop_last().skip(ns).push(p.last()));
        assert(p.drop_last().skip(ns).push(p.last()) =~= p.skip(ns));
    }
}

/// The extension as last-dot characterization.
proof fn lemma_extension_at(name: Seq<char>, d: int)
    requires
        1 <= d < name.len(),
        name[d] == '.',
        forall|k: int| d < k < name.len() ==> name[k] != '.',
    ensures
        extension_of(name) matches Some(e) && e == name.skip(d + 1),
    decreases name.len(),
{
    if d == name.len() - 1 {
        assert(name.skip(d + 1) =~= Seq::<char>::empty());
    } else {
        lemma_extension_at(name.drop_last(), d);
        assert(name.drop_last().skip(d + 1).push(name.last()) =~= name.skip(d + 1));
    }
}

/// No dot after the leading character means no extension.
proof fn lemma_no_extension(name: Seq<char>)
    requires
        forall|k: int| 1 <= k < name.len() ==> name[k] != '.',
    ensures
        extension_of(name) is None,
    decreases name.len(),
{
    if name.len() > 1 {
        lemma_no_extension(name.drop_last());
    }
}

/// The extension of a path's file name, as `&str` text.
#[verifier::loop_isolation(false)]
pub fn extension_str<'a>(p: &'a str) -> (r: Option<&'a str>)
    ensures
        r is Some <==> extension_of(file_name_of(p@)) is Some,
        r matches Some(x) ==> extension_of(file_name_of(p@)) matches Some(y) && x@ == y,
{
    let len = p.unicode_len();
    let mut ns: usize = len;
    while ns > 0 && p.get_char(ns - 1) != '/'
        invariant
            0 <= ns <= len,
            forall|k: int| ns <= k < len ==> p@[k] != '/',
        decreases ns,
    {
        ns = ns - 1;
    }
    proof {
        lemma_file_name_at(p@, ns as int);
    }
    let ghost name: Seq<char> = p@.skip(ns as int);
    let mut d: usize = len;
    while d - ns > 1 && p.get_char(d - 1) != '.'
        invariant
            ns <= d <= len,
            forall|k: int| d <= k < len ==> p@[k] != '.',
        decreases d,
    {
        d = d - 1;
    }
    if d - ns > 1 {
        proof {
            assert(name[d - 1 - ns] == '.');
            assert forall|k: int| d - 1 - ns < k < name.len() implies name[k] != '.' by {
                assert(p@[k + ns] != '.');
            }
            lemma_extension_at(name, d - 1 - ns);
            assert(name.skip(d - ns) =~= p@.skip(d as int));
        }
        Some(p.substring_char(d, len))
    } else {
        proof {
            if ns < len {
                assert forall|k: int| 1 <= k < name.len() implies name[k] != '.' by {
                    assert(p@[k + ns] != '.');
                }
                lemma_no_extension(name);
            } else {
                assert(name.len() == 0);
            }
        }
        None
    }
}

/// Case-insensitive comparison of text against a lower-case ASCII pattern.
#[verifier::loop_isolation(false)]
fn match_ci(e: &str, l: &str) -> (r: bool)
    ensures
        r == matches_ci(e@, l@),
{
    let elen = e.unicode_len();
    let llen = l.unicode_len();
    if elen != llen {
        return false;
    }
    let mut i: usize = 0;
    while i < elen
        invariant
            0 <= i <= elen,
            forall|k: int|
                0 <= k < i ==> (#[trigger] e@[k] == l@[k] || (e@[k] as u32) + 32 == (l@[k] as u32)),
        decreases elen - i,
    {
        let ce = e.get_char(i);
        let cl = l.get_char(i);
        proof {
            vstd::utf8::char_is_scalar(ce);
        }
        if !(ce == cl || (ce as u32) + 32 == (cl as u32)) {
            return false;
        }
        i = i + 1;
    }
    true
}

/// Whether an extension is on the allow-list, case-insensitively.
pub fn is_photo(extension: &str) -> (r: bool)
    ensures
        r == is_supported_ext(extension@),
{
    proof {
        reveal_strlit("tiff");
        reveal_strlit("jpeg");
        reveal_strlit("jpg");
        reveal_strlit("png");
        assert(("tiff")@ =~= seq!['t', 'i', 'f', 'f']);
        assert(("jpeg")@ =~= seq!['j', 'p', 'e', 'g']);
        assert(("jpg")@ =~= seq!['j', 'p', 'g']);
        assert(("png")@ =~= seq!['p', 'n', 'g']);
    }
    match_ci(extension, "tiff") || match_ci(extension, "jpeg") || match_ci(extension, "jpg")
        || match_ci(extension, "png")
}

/// Validates one entry: readable, text path, regular file, supported
/// extension; says exactly which check failed otherwise.
pub fn get_photo_info(e: &WalkEntry) -> (r: Result<String, Error>)
    ensures
        r is Ok <==> entry_is_photo(*e),
        r matches Ok(p) ==> p@ == e.path->0@,
        r matches Err(err) ==> classification_error(*e, err),
{
    if let Some(m) = &e.meta_err {
        return Err(Error::Metadata { message: m.clone() });
    }
    let path = match &e.path {
        Some(p) => p,
        None => {
            return Err(Error::InvalidFile);
        },
    };
    let ext = match extension_str(path.as_str()) {
        Some(x) => x,
        None => {
            return Err(Error::NoExtension { entry: path.clone() });
        },
    };
    if !e.is_file || !is_photo(ext) {
        return Err(Error::InvalidExtension);
    }
    Ok(path.clone())
}

/// Relies on walkdir::WalkDir: walks the source location recursively, the
/// root entry first, reporting each entry's path, file type and metadata.
/// What comes back depends on the file system, so nothing is assumed of it.
#[verifier::external_body]
fn walk_tree(root: &String) -> (entries: Vec<WalkEntry>) {
    let mut out = Vec::new();
    for entry in walkdir::WalkDir::new(root) {
        out.push(match entry {
            Ok(e) => WalkEntry {
                path: e.path().to_str().map(|p| p.to_string()),
                is_dir: e.file_type().is_dir(),
                is_file: e.file_type().is_file(),
                meta_err: e.metadata().err().map(|m| m.to_string()),
            },
            Err(m) => WalkEntry { path: None, is_dir: false, is_file: false, meta_err: Some(m.to_string()) },
        });
    }
    out
}

/// Discovers the photos of a source location: one strictly validated path
/// for a single-file source, else the validated files of the tree, sorted.
/// Whatever the file system held, the result is sorted ascending and holds
/// only paths with supported extensions.
pub fn get_photos(dir: &String) -> (r: Result<Vec<String>, Error>)
    ensures
        r matches Ok(v) ==> sorted_by(views_of(v@), lex_leq_fn()),
        r matches Ok(v) ==> forall|i: int| 0 <= i < v@.len() ==> path_is_photo_text(
            #[trigger] v@[i]@,
        ),
{
    let entries = walk_tree(dir);
    photos_from_entries(&entries)
}

/// Turns walked entries into the discovered photo list: strict when the
/// root is a single file, lenient filtering over a directory tree, and the
/// directory result is exactly the validated paths sorted ascending.
#[verifier::loop_isolation(false)]
pub fn photos_from_entries(entries: &Vec<WalkEntry>) -> (r: Result<Vec<String>, Error>)
    ensures
        entries@.len() == 0 ==> (r matches Ok(v) && v@.len() == 0),
        entries@.len() > 0 && entries@[0].is_file ==> {
            &&& r is Ok <==> entry_is_photo(entries@[0])
            &&& (r matches Ok(v) ==> v@.len() == 1 && v@[0]@ == entries@[0].path->0@)
            &&& (r matches Err(err) ==> classification_error(entries@[0], err))
        },
        entries@.len() > 0 && !entries@[0].is_file ==> (r matches Ok(v) && views_of(v@)
            == dir_photos(entries@).sort_by(lex_leq_fn())),
        r matches Ok(v) ==> sorted_by(views_of(v@), lex_leq_fn()),
        r matches Ok(v) ==> forall|i: int| 0 <= i < v@.len() ==> path_is_photo_text(
            #[trigger] v@[i]@,
        ),
{
    if entries.len() > 0 && entries[0].is_file {
        match get_photo_info(&entries[0]) {
            Ok(p) => {
                let mut v: Vec<String> = Vec::new();
                let ghost pv = p@;
                v.push(p);
                proof {
                    assert(views_of(v@) =~= seq![pv]);
                    assert(path_is_photo_text(pv));
                }
                Ok(v)
            },
            Err(e) => Err(e),
        }
    } else {
        let mut found: Vec<String> = Vec::new();
        let mut i: usize = 0;
        proof {
            assert(views_of(found@) =~= dir_photos(entries@.take(0)));
        }
        while i < entries.len()
            invariant
                0 <= i <= entries@.len(),
                views_of(found@) =~= dir_photos(entries@.take(i as int)),
            decreases entries@.len() - i,
        {
            let e = &entries[i];
            let ghost old_found = found@;
            if !e.is_dir {
                match get_photo_info(e) {
                    Ok(p) => {
                        found.push(p);
                    },
                    Err(_) => {},
                }
            }
            proof {
                assert(entries@.take(i + 1).drop_last() =~= entries@.take(i as int));
                assert(entries@.take(i + 1).last() == entries@[i as int]);
                assert(views_of(found@) =~= dir_photos(entries@.take(i + 1)));
            }
            i = i + 1;
        }
        proof {
            assert(entries@.take(entries@.len() as int) =~= entries@);
        }
        let sorted = sort_paths(found);
        proof {
            lemma_lex_total_ordering();
            dir_photos(entries@).lemma_sort_by_ensures(lex_leq_fn());
            assert(views_of(sorted@).to_multiset() == dir_photos(entries@).to_multiset());
            lemma_sorted_unique(
                views_of(sorted@),
                dir_photos(entries@).sort_by(lex_leq_fn()),
                lex_leq_fn(),
            );
            lemma_dir_photos_supported(entries@);
            assert forall|k: int| 0 <= k < sorted@.len() implies path_is_photo_text(
                #[trigger] sorted@[k]@,
            ) by {
                let x = views_of(sorted@)[k];
                assert(views_of(sorted@).contains(x));
                vstd::seq_lib::to_multiset_contains(views_of(sorted@), x);
                vstd::seq_lib::to_multiset_contains(dir_photos(entries@), x);
                assert(dir_photos(entries@).contains(x));
                let j = choose|j: int|
                    0 <= j < dir_photos(entries@).len() && dir_photos(entries@)[j] == x;
                assert(path_is_photo_text(dir_photos(entries@)[j]));
            }
        }
        Ok(sorted)
    }
}

} // verus!
