use vstd::prelude::*;
use vstd::string::StringExecFns;

verus! {

/// What `str::to_lowercase` makes of a string.
pub uninterp spec fn lower_of(s: Seq<char>) -> Seq<char>;

/// Relies on `str::to_lowercase`: the lower-case form of `s`, which depends
/// on its characters alone.
#[verifier::external_body]
fn lowercase(s: &str) -> (r: String)
    ensures
        r@ == lower_of(s@),
{
    s.to_lowercase()
}

/// Image file extensions that are measured, in lower case.
pub open spec fn is_supported_spec(ext: Seq<char>) -> bool {
    ext == "png"@ || ext == "jpg"@ || ext == "jpeg"@ || ext == "bmp"@ || ext == "gif"@
}

/// Entries at `depth` below the root are visited: every depth when
/// recursing, otherwise only the root's direct children.
pub open spec fn within_depth(recursive: bool, depth: int) -> bool {
    recursive || depth <= 1
}

/// An entry is measured when it is a file within reach whose extension is
/// supported, ignoring case.
pub open spec fn is_candidate_spec(
    recursive: bool,
    depth: int,
    is_file: bool,
    extension: Option<Seq<char>>,
) -> bool {
    &&& is_file
    &&& within_depth(recursive, depth)
    &&& extension matches Some(e) && is_supported_spec(lower_of(e))
}

/// An entry whose extension, in lower case, is not a supported one is never
/// measured, whatever the file holds and wherever it lies.
pub proof fn lemma_unsupported_never_measured(
    recursive: bool,
    depth: int,
    is_file: bool,
    extension: Seq<char>,
)
    requires
        !is_supported_spec(lower_of(extension)),
    ensures
        !is_candidate_spec(recursive, depth, is_file, Some(extension)),
{
}

/// Without recursion no entry inside a subdirectory of the root (depth two
/// or more) is measured; with recursion such a file is measured exactly
/// when its extension is supported.
pub proof fn lemma_recursion_reaches_subdirectories(depth: int, extension: Seq<char>)
    requires
        depth >= 2,
    ensures
        !is_candidate_spec(false, depth, true, Some(extension)),
        is_candidate_spec(true, depth, true, Some(extension)) == is_supported_spec(
            lower_of(extension),
        ),
{
}

/// Whether two strings hold the same characters.
pub(crate) fn same_text(a: &str, b: &str) -> (r: bool)
    ensures
        r == (a@ == b@),
{
    let n = a.unicode_len();
    if n != b.unicode_len() {
        return false;
    }
    let mut i: usize = 0;
    while i < n
        invariant
            n == a@.len(),
            n == b@.len(),
            i <= n,
            forall|k: int| 0 <= k < i ==> a@[k] == b@[k],
        decreases n - i,
    {
        if a.get_char(i) != b.get_char(i) {
            return false;
        }
        i = i + 1;
    }
    assert(a@ =~= b@);
    true
}

/// Whether an extension already in lower case is one that is measured.
pub fn is_supported_lowered(ext: &str) -> (r: bool)
    ensures
        r == is_supported_spec(ext@),
{
    same_text(ext, "png") || same_text(ext, "jpg") || same_text(ext, "jpeg") || same_text(
        ext,
        "bmp",
    ) || same_text(ext, "gif")
}

/// Whether an extension, in any case, is one that is measured.
pub fn is_supported_extension(ext: &str) -> (r: bool)
    ensures
        r == is_supported_spec(lower_of(ext@)),
{
    let lowered = lowercase(ext);
    is_supported_lowered(lowered.as_str())
}

/// The deepest level below the root that the walk descends to; `None`
/// means no limit.
pub fn depth_limit(recursive: bool) -> (r: Option<usize>)
    ensures
        recursive ==> r is None,
        !recursive ==> r == Some(1usize),
        forall|d: int| 0 <= d ==> (within_depth(recursive, d) <==> (r matches Some(m) ==> d <= m)),
{
    if recursive {
        None
    } else {
        Some(1)
    }
}

/// Decides whether a walked entry is measured, given its depth below the
/// root, whether it is a regular file, and its extension when it has one
/// that is valid text.
pub fn is_candidate(recursive: bool, depth: usize, is_file: bool, extension: Option<&str>) -> (r:
    bool)
    ensures
        r == is_candidate_spec(
            recursive,
            depth as int,
            is_file,
            match extension {
                Some(e) => Some(e@),
                None => None,
            },
        ),
{
    if !is_file || !(recursive || depth <= 1) {
        return false;
    }
    match extension {
        Some(e) => is_supported_extension(e),
        None => false,
    }
}

} // verus!
