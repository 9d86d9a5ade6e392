//! Codec selection by file name suffix.
use vstd::prelude::*;

verus! {

/// The codec that an archive entry is stored with.
#[derive(Debug, Clone, Copy, PartialEq, Eq, Structural)]
pub enum DecompressionFormat {
    Gzip,
    UnixCompress,
    Plain,
}

/// `s` ends with `suf`.
pub open spec fn has_suffix(s: Seq<char>, suf: Seq<char>) -> bool {
    suf.len() <= s.len() && s.subrange(s.len() - suf.len(), s.len() as int) == suf
}

/// `s` without its last `n` characters.
pub open spec fn drop_last_n(s: Seq<char>, n: nat) -> Seq<char> {
    s.subrange(0, s.len() - n)
}

pub open spec fn gz_suffix() -> Seq<char> {
    seq!['.', 'g', 'z']
}

pub open spec fn z_suffix() -> Seq<char> {
    seq!['.', 'Z']
}

/// The codec selected for a file name.
pub open spec fn format_of(name: Seq<char>) -> DecompressionFormat {
    if has_suffix(name, gz_suffix()) {
        DecompressionFormat::Gzip
    } else if has_suffix(name, z_suffix()) {
        DecompressionFormat::UnixCompress
    } else {
        DecompressionFormat::Plain
    }
}

/// The name a file is stored and declared under: the suffix that selected
/// its codec (`.gz` or `.Z`) removed once, any other name unchanged.
pub open spec fn stored_name_of(name: Seq<char>) -> Seq<char> {
    if has_suffix(name, gz_suffix()) {
        drop_last_n(name, 3)
    } else if has_suffix(name, z_suffix()) {
        drop_last_n(name, 2)
    } else {
        name
    }
}

/// Relies on `str::ends_with` with a string pattern.
#[verifier::external_body]
fn str_ends_with(s: &str, pat: &str) -> (r: bool)
    ensures
        r == has_suffix(s@, pat@),
{
    s.ends_with(pat)
}

/// Relies on `str::strip_suffix` with a string pattern: the rest of `s` when
/// it ends with `pat`, else `None`.
#[verifier::external_body]
fn str_strip_suffix(s: &str, pat: &str) -> (r: Option<String>)
    ensures
        r matches Some(t) ==> has_suffix(s@, pat@) && t@ == drop_last_n(s@, pat@.len()),
        r is None ==> !has_suffix(s@, pat@),
{
    s.strip_suffix(pat).map(|t| t.to_string())
}

/// Selects the codec by suffix: `.gz` is gzip, `.Z` is Unix compress, anything
/// else is passed through.
pub fn get_format(filename: &str) -> (r: DecompressionFormat)
    ensures
        r == format_of(filename@),
{
    proof {
        reveal_strlit(".gz");
        reveal_strlit(".Z");
        assert(".gz"@ =~= gz_suffix());
        assert(".Z"@ =~= z_suffix());
    }
    if str_ends_with(filename, ".gz") {
        DecompressionFormat::Gzip
    } else if str_ends_with(filename, ".Z") {
        DecompressionFormat::UnixCompress
    } else {
        DecompressionFormat::Plain
    }
}

/// The name under which an entry is looked up and stored.
pub fn stored_name(filename: &str) -> (r: String)
    ensures
        r@ == stored_name_of(filename@),
{
    proof {
        reveal_strlit(".gz");
        reveal_strlit(".Z");
        assert(".gz"@ =~= gz_suffix());
        assert(".Z"@ =~= z_suffix());
    }
    match str_strip_suffix(filename, ".gz") {
        Some(t) => t,
        None => match str_strip_suffix(filename, ".Z") {
            Some(t) => t,
            None => filename.to_owned(),
        },
    }
}

} // verus!
