//! File-path helpers for image entries: where an image's bytes are kept and
//! where its thumbnail lives.

use vstd::prelude::*;
use vstd::string::StringExecFns;
use vstd::string::StrSliceExecFns;

verus! {

broadcast use vstd::string::group_string_axioms;

/// The final component of a path, as `std::path::Path::file_name` gives it.
pub uninterp spec fn path_file_name(p: Seq<char>) -> Option<Seq<char>>;

/// The path without its final component, as `std::path::Path::parent` gives
/// it.
pub uninterp spec fn path_parent(p: Seq<char>) -> Option<Seq<char>>;

/// `base` extended by `name`, as `std::path::Path::join` gives it.
pub uninterp spec fn path_join(base: Seq<char>, name: Seq<char>) -> Seq<char>;

/// `Path::file_name` of std, converted back to a string. Trusted to return
/// the final component that std computes; a component of a `&str` path is
/// always valid UTF-8, so the conversion never drops one.
#[verifier::external_body]
fn file_name_of(p: &str) -> (r: Option<String>)
    ensures
        r.deep_view() == path_file_name(p@),
{
    std::path::Path::new(p).file_name().and_then(|n| n.to_str()).map(|n| n.to_owned())
}

/// `Path::parent` of std, converted back to a string. Trusted to return the
/// parent that std computes.
#[verifier::external_body]
fn parent_of(p: &str) -> (r: Option<String>)
    ensures
        r.deep_view() == path_parent(p@),
{
    std::path::Path::new(p).parent().and_then(|n| n.to_str()).map(|n| n.to_owned())
}

/// `Path::join` of std, converted back to a string. Trusted to return the
/// joined path that std computes.
#[verifier::external_body]
pub(crate) fn join_of(base: &str, name: &str) -> (r: String)
    ensures
        r@ == path_join(base@, name@),
{
    std::path::Path::new(base).join(name).to_string_lossy().into_owned()
}

/// The prefix of every thumbnail file name.
pub open spec fn thumb_prefix() -> Seq<char> {
    seq!['t', 'h', 'u', 'm', 'b', '_']
}

/// Thumbnail path recorded for an image whose bytes are at `p`:
/// `thumb_<file name>` next to it, when `p` has both a file name and a parent.
pub open spec fn thumb_path_of(p: Seq<char>) -> Option<Seq<char>> {
    match (path_file_name(p), path_parent(p)) {
        (Some(name), Some(parent)) => Some(path_join(parent, thumb_prefix() + name)),
        _ => None,
    }
}

/// Thumbnail file looked up for an image whose bytes are at `p`: the parent
/// joined with `thumb_` and the file name (empty when there is none).
pub open spec fn thumbnail_lookup_of(p: Seq<char>) -> Option<Seq<char>> {
    match path_parent(p) {
        Some(parent) => Some(
            path_join(
                parent,
                thumb_prefix() + match path_file_name(p) {
                    Some(n) => n,
                    None => Seq::empty(),
                },
            ),
        ),
        None => None,
    }
}

/// Index of the last character of `s` that is `a` or `b`, or -1.
pub open spec fn last_of(s: Seq<char>, a: char, b: char) -> int
    decreases s.len(),
{
    if s.len() == 0 {
        -1
    } else if s.last() == a || s.last() == b {
        s.len() - 1
    } else {
        last_of(s.drop_last(), a, b)
    }
}

proof fn lemma_last_of_bounds(s: Seq<char>, a: char, b: char)
    ensures
        -1 <= last_of(s, a, b) < s.len(),
        last_of(s, a, b) >= 0 ==> (s[last_of(s, a, b)] == a || s[last_of(s, a, b)] == b),
        forall|k: int| last_of(s, a, b) < k < s.len() ==> s[k] != a && s[k] != b,
    decreases s.len(),
{
    if s.len() > 0 {
        lemma_last_of_bounds(s.drop_last(), a, b);
        assert forall|k: int| last_of(s, a, b) < k < s.len() implies s[k] != a && s[k] != b by {
            if k < s.len() - 1 {
                assert(s[k] == s.drop_last()[k]);
            }
        }
    }
}

/// The part of `s` after its last `a` or `b` (all of `s` when there is none).
pub open spec fn after_last(s: Seq<char>, a: char, b: char) -> Seq<char> {
    s.subrange(last_of(s, a, b) + 1, s.len() as int)
}

/// Position just after the last `a` or `b` in `s`.
pub fn after_last_index(s: &str, a: char, b: char) -> (r: usize)
    ensures
        r == last_of(s@, a, b) + 1,
        r <= s@.len(),
{
    let n = s.unicode_len();
    let mut i = n;
    proof {
        lemma_last_of_bounds(s@, a, b);
        assert(s@.take(n as int) =~= s@);
    }
    while i > 0
        invariant
            i <= n,
            n == s@.len(),
            last_of(s@, a, b) == last_of(s@.take(i as int), a, b),
        decreases i,
    {
        let c = s.get_char(i - 1);
        assert(s@.take(i as int).last() == c);
        if c == a || c == b {
            return i;
        }
        assert(s@.take(i as int).drop_last() =~= s@.take(i - 1));
        i = i - 1;
    }
    0
}

/// The part of `s` after its last `a` or `b`.
pub fn tail_after<'x>(s: &'x str, a: char, b: char) -> (r: &'x str)
    ensures
        r@ == after_last(s@, a, b),
{
    let k = after_last_index(s, a, b);
    let n = s.unicode_len();
    s.substring_char(k, n)
}

/// The file-name extension used for an image of MIME type `mime`: the part
/// after its last `/`.
pub open spec fn mime_extension(mime: Seq<char>) -> Seq<char> {
    after_last(mime, '/', '/')
}

/// Where the bytes of an image with hash `hash` and MIME type `mime` are
/// kept: `<hash>.<extension>` inside the images directory, or the empty path
/// when the store keeps no images directory.
pub open spec fn image_path_of(images_dir: Option<Seq<char>>, hash: Seq<char>, mime: Seq<char>) -> Seq<char> {
    match images_dir {
        Some(dir) => path_join(dir, hash + seq!['.'] + mime_extension(mime)),
        None => Seq::empty(),
    }
}

/// Path of the image file for `hash` and `mime` under `images_dir`.
pub fn image_path(images_dir: Option<&str>, hash: &str, mime: &str) -> (r: String)
    ensures
        r@ == image_path_of(images_dir.deep_view(), hash@, mime@),
{
    match images_dir {
        Some(dir) => {
            let ext = tail_after(mime, '/', '/');
            let mut name = hash.to_owned();
            name.append(".");
            name.append(ext);
            proof {
                reveal_strlit(".");
            }
            assert(name@ =~= hash@ + seq!['.'] + mime_extension(mime@));
            join_of(dir, name.as_str())
        },
        None => {
            let r = String::new();
            r
        },
    }
}

/// Thumbnail path recorded for an image stored at `content_path`.
pub fn derive_thumb_path(content_path: &str) -> (r: Option<String>)
    ensures
        r.deep_view() == thumb_path_of(content_path@),
{
    let name = file_name_of(content_path);
    match name {
        None => None,
        Some(name) => {
            let parent = parent_of(content_path);
            match parent {
                None => None,
                Some(parent) => {
                    let mut thumb = "thumb_".to_owned();
                    thumb.append(name.as_str());
                    proof {
                        reveal_strlit("thumb_");
                    }
                    assert(thumb@ =~= thumb_prefix() + name@);
                    Some(join_of(parent.as_str(), thumb.as_str()))
                },
            }
        },
    }
}

/// Thumbnail file to look for beside an image stored at `content_path`.
pub fn thumbnail_lookup(content_path: &str) -> (r: Option<String>)
    ensures
        r.deep_view() == thumbnail_lookup_of(content_path@),
{
    let parent = parent_of(content_path);
    match parent {
        None => None,
        Some(parent) => {
            let name = file_name_of(content_path);
            let mut thumb = "thumb_".to_owned();
            proof {
                reveal_strlit("thumb_");
            }
            match name {
                Some(n) => thumb.append(n.as_str()),
                None => {},
            }
            assert(thumb@ =~= thumb_prefix() + match path_file_name(content_path@) {
                Some(n) => n,
                None => Seq::<char>::empty(),
            });
            Some(join_of(parent.as_str(), thumb.as_str()))
        },
    }
}

/// The daemon's socket for user `uid`: `/run/user/<uid>/clipvault.sock`.
pub open spec fn socket_path_of(uid: u32) -> Seq<char> {
    "/run/user/"@ + crate::text::decimal(uid as nat) + "/clipvault.sock"@
}

/// The daemon's socket path for user `uid`.
pub fn socket_path_for(uid: u32) -> (r: String)
    ensures
        r@ == socket_path_of(uid),
{
    let mut s = "/run/user/".to_owned();
    s.append(crate::text::decimal_text(uid as u64).as_str());
    s.append("/clipvault.sock");
    s
}

} // verus!
