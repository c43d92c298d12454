//! The path-identifier codec.
//!
//! An absolute directory path is flattened into a single identifier token:
//! the leading separator is stripped, every remaining separator and every dot
//! becomes a hyphen, and a hyphen is prepended. Decoding reverses the
//! separator substitution but cannot tell a hyphen that stood for a separator
//! from one that was part of a segment (or stood for a dot), so the encoding
//! is deliberately not injective: decoding returns the set of plausible
//! reconstructions, today a single best-effort candidate.

use vstd::prelude::*;

use crate::paths::last_pos;
use crate::paths::last_slash;
use crate::paths::lemma_last_pos;
use crate::paths::lemma_no_char;
use crate::paths::push_char;
use crate::paths::rfind_char;
use crate::paths::str_eq;
use crate::paths::tail_from;

verus! {

/// Why a path was rejected by the encoder.
#[derive(Debug, PartialEq, Eq, Structural)]
pub enum CodecError {
    /// The path does not begin with a separator.
    NotAbsolute,
    /// The path's final segment ends in a file-extension-like suffix.
    TrailingExtension,
}

/// True when `p` is an absolute path: nonempty, beginning with a separator.
pub open spec fn is_absolute(p: Seq<char>) -> bool {
    p.len() > 0 && p[0] == '/'
}

/// How one path character is flattened by the encoder.
pub open spec fn flatten_char(c: char) -> char {
    if c == '/' || c == '.' {
        '-'
    } else {
        c
    }
}

/// How one identifier character is expanded by the decoder.
pub open spec fn expand_char(c: char) -> char {
    if c == '-' {
        '/'
    } else {
        c
    }
}

/// The identifier token of an absolute path: a hyphen, then every character
/// after the leading separator with separators and dots flattened to hyphens.
pub open spec fn encode_spec(p: Seq<char>) -> Seq<char> {
    seq!['-'] + p.skip(1).map_values(|c: char| flatten_char(c))
}

/// The single candidate path reconstructed from an identifier token: one
/// leading hyphen is dropped if present, every hyphen becomes a separator,
/// and a leading separator is prepended.
pub open spec fn decode_spec(token: Seq<char>) -> Seq<char> {
    let body = if token.len() > 0 && token[0] == '-' {
        token.skip(1)
    } else {
        token
    };
    seq!['/'] + body.map_values(|c: char| expand_char(c))
}

/// The recognized domain-like suffixes, never treated as file extensions.
pub open spec fn spec_domain_suffixes() -> Seq<Seq<char>> {
    seq![".com"@, ".org"@, ".net"@, ".io"@, ".dev"@, ".ai"@]
}

/// The recognized domain-like suffixes, as strings.
pub fn domain_suffixes() -> (v: Vec<String>)
    ensures
        v@.len() == spec_domain_suffixes().len(),
        forall|i: int| 0 <= i < v@.len() ==> v@[i]@ == spec_domain_suffixes()[i],
{
    let mut v: Vec<String> = Vec::new();
    v.push(".com".to_owned());
    v.push(".org".to_owned());
    v.push(".net".to_owned());
    v.push(".io".to_owned());
    v.push(".dev".to_owned());
    v.push(".ai".to_owned());
    v
}

/// True when the final segment of `p` carries a file-extension-like suffix:
/// its last dot is neither the segment's first character nor part of a
/// recognized domain-like suffix.
pub open spec fn has_trailing_extension(p: Seq<char>) -> bool {
    let dot = last_pos(p, '.');
    dot > last_slash(p) + 1 && !spec_domain_suffixes().contains(p.skip(dot))
}

/// Tests whether `suffix` is one of the recognized domain-like suffixes.
fn is_domain_suffix(suffix: &str) -> (r: bool)
    ensures
        r == spec_domain_suffixes().contains(suffix@),
{
    let table = domain_suffixes();
    let mut i: usize = 0;
    while i < table.len()
        invariant
            0 <= i <= table@.len(),
            table@.len() == spec_domain_suffixes().len(),
            forall|j: int| 0 <= j < table@.len() ==> table@[j]@ == spec_domain_suffixes()[j],
            forall|j: int| 0 <= j < i ==> spec_domain_suffixes()[j] != suffix@,
        decreases table@.len() - i,
    {
        if str_eq(table[i].as_str(), suffix) {
            return true;
        }
        i = i + 1;
    }
    false
}

/// Encodes an absolute directory path as its identifier token.
///
/// The path must be absolute and must not end in a file-extension-like
/// suffix; either violation is reported as the matching [`CodecError`].
/// Dots are flattened along with separators, so dotted segments do not
/// survive a round trip through the decoder; see
/// [`lemma_encode_decode_round_trip`].
pub fn dir_path_to_claude_code_stype(dir_path: &str) -> (r: Result<String, CodecError>)
    ensures
        match r {
            Ok(token) => is_absolute(dir_path@) && !has_trailing_extension(dir_path@)
                && token@ == encode_spec(dir_path@),
            Err(CodecError::NotAbsolute) => !is_absolute(dir_path@),
            Err(CodecError::TrailingExtension) => is_absolute(dir_path@)
                && has_trailing_extension(dir_path@),
        },
{
    let len = dir_path.unicode_len();
    if len == 0 || dir_path.get_char(0) != '/' {
        return Err(CodecError::NotAbsolute);
    }
    match rfind_char(dir_path, '.') {
        None => {
            proof {
                lemma_last_pos(dir_path@, '/');
            }
        },
        Some(dot) => {
            let slash = match rfind_char(dir_path, '/') {
                Some(s) => s,
                None => {
                    proof {
                        lemma_last_pos(dir_path@, '/');
                    }
                    return Err(CodecError::NotAbsolute);
                },
            };
            if dot > slash + 1 {
                let suffix = tail_from(dir_path, dot);
                if !is_domain_suffix(suffix.as_str()) {
                    return Err(CodecError::TrailingExtension);
                }
            }
        },
    }
    let mut token = String::new();
    push_char(&mut token, '-');
    let mut i: usize = 1;
    while i < len
        invariant
            1 <= i <= len,
            len == dir_path@.len(),
            token@.len() == i,
            token@[0] == '-',
            forall|j: int| 1 <= j < i ==> token@[j] == flatten_char(dir_path@[j]),
        decreases len - i,
    {
        let c = dir_path.get_char(i);
        if c == '/' || c == '.' {
            push_char(&mut token, '-');
        } else {
            push_char(&mut token, c);
        }
        i = i + 1;
    }
    proof {
        assert(token@ =~= encode_spec(dir_path@));
    }
    Ok(token)
}

/// Decodes an identifier token into the set of plausible original paths.
///
/// Today the set holds exactly one best-effort candidate; enumerating the
/// dot/hyphen ambiguity variants is an extension point. A missing leading
/// hyphen is tolerated, not an error.
pub fn claude_code_stype_to_file_path(code_stype: &str) -> (r: Vec<String>)
    ensures
        r@.len() == 1,
        r@[0]@ == decode_spec(code_stype@),
{
    let len = code_stype.unicode_len();
    let start: usize = if len > 0 && code_stype.get_char(0) == '-' {
        1
    } else {
        0
    };
    let mut path = String::new();
    push_char(&mut path, '/');
    let mut i: usize = start;
    while i < len
        invariant
            start <= i <= len,
            len == code_stype@.len(),
            path@.len() == 1 + i - start,
            path@[0] == '/',
            forall|j: int|
                start <= j < i ==> path@[1 + j - start] == expand_char(code_stype@[j]),
        decreases len - i,
    {
        let c = code_stype.get_char(i);
        if c == '-' {
            push_char(&mut path, '/');
        } else {
            push_char(&mut path, c);
        }
        i = i + 1;
    }
    proof {
        assert(path@ =~= decode_spec(code_stype@));
    }
    let mut results: Vec<String> = Vec::new();
    results.push(path);
    results
}

/// Law: decoding an encoded path reconstructs it exactly, for every absolute
/// path none of whose segments contains a literal hyphen or a dot. (A dotted
/// segment such as `github.com` is flattened to hyphens by the encoder and
/// comes back as separators, so it is excluded here.)
pub proof fn lemma_encode_decode_round_trip(p: Seq<char>)
    requires
        is_absolute(p),
        forall|i: int| 1 <= i < p.len() ==> p[i] != '-' && p[i] != '.',
    ensures
        !has_trailing_extension(p),
        decode_spec(encode_spec(p)) == p,
{
    assert forall|j: int| 0 <= j < p.len() implies p[j] != '.' by {}
    lemma_no_char(p, '.');
    lemma_last_pos(p, '/');
    let token = encode_spec(p);
    assert(token[0] == '-');
    let body = token.skip(1);
    assert(body =~= p.skip(1).map_values(|c: char| flatten_char(c)));
    let out = decode_spec(token);
    assert forall|j: int| 0 <= j < out.len() implies out[j] == p[j] by {
        if j > 0 {
            assert(out[j] == expand_char(flatten_char(p[j])));
        }
    }
    assert(out =~= p);
}

} // verus!
