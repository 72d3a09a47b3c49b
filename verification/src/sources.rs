//! Content sources: the closed union of the transports a file can be fetched
//! from, the content-addressing hash, and the parsing of shorthand source
//! strings. Fetching itself is outside work and is done by the surrounding
//! program; the library owns everything that can be said about a source as a
//! value.

use vstd::prelude::*;

use crate::cli::{
    is_repo, is_repo_spec, simple_source_ok, simple_source_val, source_from_string_simple,
};
use crate::errors::VaultError;
use crate::text::{
    chars_vec, contains_char, find_first, first_index, lemma_first_index, matches_at,
    string_from_chars, subvec,
};
use crate::variables::{
    all_bound, apply_all_string, check_all_bound, dedup_seq, fold_subst_str, scan_vars, subst_str,
    subst_string, union3, VariableCompletion,
};

verus! {

/// One way to obtain the bytes of a file: a local path, an HTTP download, an
/// SFTP endpoint, a blob in a git repository, inline text, or a shorthand
/// string parsed into one of the others.
#[derive(Debug, Clone, PartialEq)]
pub enum FileSource {
    Local { path: String },
    Download { url: String },
    Sftp { user: String, service: String, path: String, port: Option<usize> },
    Git { repo: String, id: String, path: String },
    Text { content: String, ignore_variables: bool },
    Auto(String),
}

/// The mathematical value of a source: its variant with every string as a
/// character sequence.
pub enum SourceV {
    Local { path: Seq<char> },
    Download { url: Seq<char> },
    Sftp { user: Seq<char>, service: Seq<char>, path: Seq<char>, port: Option<usize> },
    Git { repo: Seq<char>, id: Seq<char>, path: Seq<char> },
    Text { content: Seq<char>, ignore_variables: bool },
    Auto(Seq<char>),
}

impl DeepView for FileSource {
    type V = SourceV;

    open spec fn deep_view(&self) -> SourceV {
        self.view()
    }
}

impl View for FileSource {
    type V = SourceV;

    open spec fn view(&self) -> SourceV {
        match self {
            FileSource::Local { path } => SourceV::Local { path: path@ },
            FileSource::Download { url } => SourceV::Download { url: url@ },
            FileSource::Sftp { user, service, path, port } => SourceV::Sftp {
                user: user@,
                service: service@,
                path: path@,
                port: *port,
            },
            FileSource::Git { repo, id, path } => SourceV::Git {
                repo: repo@,
                id: id@,
                path: path@,
            },
            FileSource::Text { content, ignore_variables } => SourceV::Text {
                content: content@,
                ignore_variables: *ignore_variables,
            },
            FileSource::Auto(s) => SourceV::Auto(s@),
        }
    }
}

impl FileSource {
    /// An equal copy, field by field.
    pub fn duplicate(&self) -> (r: Self)
        ensures
            r@ == self@,
    {
        match self {
            FileSource::Local { path } => FileSource::Local { path: path.clone() },
            FileSource::Download { url } => FileSource::Download { url: url.clone() },
            FileSource::Sftp { user, service, path, port } => FileSource::Sftp {
                user: user.clone(),
                service: service.clone(),
                path: path.clone(),
                port: *port,
            },
            FileSource::Git { repo, id, path } => FileSource::Git {
                repo: repo.clone(),
                id: id.clone(),
                path: path.clone(),
            },
            FileSource::Text { content, ignore_variables } => FileSource::Text {
                content: content.clone(),
                ignore_variables: *ignore_variables,
            },
            FileSource::Auto(s) => FileSource::Auto(s.clone()),
        }
    }
}

/// The SHA3-256 digest of a byte sequence; its value is a function of the
/// bytes alone.
pub uninterp spec fn sha3_digest(data: Seq<u8>) -> Seq<u8>;

/// Relies on the sha3 crate's `Sha3_256` (through the digest traits): the
/// 32-byte SHA3-256 digest of the input, depending on the input alone.
#[verifier::external_body]
fn sha3_bytes(content: &Vec<u8>) -> (r: Vec<u8>)
    ensures
        r@ == sha3_digest(content@),
        r@.len() == 32,
{
    <sha3::Sha3_256 as sha3::Digest>::digest(content.as_slice()).to_vec()
}

/// The sixteen digits of upper-case hexadecimal.
pub open spec fn hex_upper_char(n: u8) -> char {
    if n == 0 {
        '0'
    } else if n == 1 {
        '1'
    } else if n == 2 {
        '2'
    } else if n == 3 {
        '3'
    } else if n == 4 {
        '4'
    } else if n == 5 {
        '5'
    } else if n == 6 {
        '6'
    } else if n == 7 {
        '7'
    } else if n == 8 {
        '8'
    } else if n == 9 {
        '9'
    } else if n == 10 {
        'A'
    } else if n == 11 {
        'B'
    } else if n == 12 {
        'C'
    } else if n == 13 {
        'D'
    } else if n == 14 {
        'E'
    } else {
        'F'
    }
}

/// The upper-case hexadecimal encoding of a byte sequence, two digits per
/// byte.
pub open spec fn hex_of_bytes(data: Seq<u8>) -> Seq<char>
    decreases data.len(),
{
    if data.len() == 0 {
        Seq::empty()
    } else {
        seq![hex_upper_char(data[0] / 16), hex_upper_char(data[0] % 16)] + hex_of_bytes(
            data.skip(1),
        )
    }
}

/// One upper-case hexadecimal digit.
fn hex_char(n: u8) -> (c: char)
    requires
        n < 16,
    ensures
        c == hex_upper_char(n),
{
    if n == 0 {
        '0'
    } else if n == 1 {
        '1'
    } else if n == 2 {
        '2'
    } else if n == 3 {
        '3'
    } else if n == 4 {
        '4'
    } else if n == 5 {
        '5'
    } else if n == 6 {
        '6'
    } else if n == 7 {
        '7'
    } else if n == 8 {
        '8'
    } else if n == 9 {
        '9'
    } else if n == 10 {
        'A'
    } else if n == 11 {
        'B'
    } else if n == 12 {
        'C'
    } else if n == 13 {
        'D'
    } else if n == 14 {
        'E'
    } else {
        'F'
    }
}

/// The content-addressing hash used throughout: the SHA3-256 digest in
/// upper-case hexadecimal.
pub open spec fn hash_hex(data: Seq<u8>) -> Seq<char> {
    hex_of_bytes(sha3_digest(data))
}

/// Compute the content hash of a byte vector.
pub fn compute_hash(content: &Vec<u8>) -> (r: String)
    ensures
        r@ == hash_hex(content@),
        r@.len() == 64,
{
    let digest = sha3_bytes(content);
    let mut out: Vec<char> = Vec::new();
    let mut i: usize = 0;
    proof {
        assert(digest@.skip(0) =~= digest@);
    }
    while i < digest.len()
        invariant
            i <= digest.len(),
            out@ + hex_of_bytes(digest@.skip(i as int)) == hex_of_bytes(digest@),
            out@.len() == 2 * i,
        decreases digest.len() - i,
    {
        proof {
            assert(digest@.skip(i as int)[0] == digest@[i as int]);
            assert(digest@.skip(i as int).skip(1) =~= digest@.skip(i + 1));
            assert(out@ + hex_of_bytes(digest@.skip(i as int)) =~= (out@ + seq![
                hex_upper_char(digest@[i as int] / 16),
                hex_upper_char(digest@[i as int] % 16),
            ]) + hex_of_bytes(digest@.skip(i + 1)));
        }
        let b = digest[i];
        out.push(hex_char(b / 16));
        out.push(hex_char(b % 16));
        i = i + 1;
    }
    proof {
        assert(digest@.skip(i as int) =~= Seq::<u8>::empty());
        assert(out@ + hex_of_bytes(digest@.skip(i as int)) =~= out@);
    }
    string_from_chars(&out)
}

/// The characters of `http://`.
pub open spec fn http_prefix() -> Seq<char> {
    seq!['h', 't', 't', 'p', ':', '/', '/']
}

/// The characters of `https://`.
pub open spec fn https_prefix() -> Seq<char> {
    seq!['h', 't', 't', 'p', 's', ':', '/', '/']
}

/// Whether a path string is a web URL.
pub open spec fn is_url_spec(s: Seq<char>) -> bool {
    matches_at(s, 0, http_prefix()) || matches_at(s, 0, https_prefix())
}

/// Whether a path string starts with `http://` or `https://`.
pub fn is_url(path: &str) -> (r: bool)
    ensures
        r == is_url_spec(path@),
{
    let cs = chars_vec(path);
    let mut p1: Vec<char> = Vec::new();
    p1.push('h');
    p1.push('t');
    p1.push('t');
    p1.push('p');
    p1.push(':');
    p1.push('/');
    p1.push('/');
    let mut p2: Vec<char> = Vec::new();
    p2.push('h');
    p2.push('t');
    p2.push('t');
    p2.push('p');
    p2.push('s');
    p2.push(':');
    p2.push('/');
    p2.push('/');
    proof {
        assert(p1@ =~= http_prefix());
        assert(p2@ =~= https_prefix());
    }
    crate::text::starts_with_chars(&cs, &p1) || crate::text::starts_with_chars(&cs, &p2)
}

/// Whether a path string is a web URL or an ssh-style `user@host:path`
/// reference.
pub open spec fn is_url_or_ssh_spec(s: Seq<char>) -> bool {
    is_url_spec(s) || (s.contains('@') && s.contains(':'))
}

/// Whether a path string is a web URL or an ssh-style reference.
pub fn is_url_or_ssh(path: &str) -> (r: bool)
    ensures
        r == is_url_or_ssh_spec(path@),
{
    if is_url(path) {
        return true;
    }
    let cs = chars_vec(path);
    contains_char(&cs, '@') && contains_char(&cs, ':')
}

/// A subpath with its leading slashes removed.
pub open spec fn strip_slashes(s: Seq<char>) -> Seq<char>
    decreases s.len(),
{
    if s.len() > 0 && s[0] == '/' {
        strip_slashes(s.skip(1))
    } else {
        s
    }
}

/// Remove the leading slashes of a subpath, making it relative.
pub fn format_subpath(subpath: &String) -> (r: String)
    ensures
        r@ == strip_slashes(subpath@),
{
    let cs = chars_vec(subpath.as_str());
    let mut k: usize = 0;
    while k < cs.len() && cs[k] == '/'
        invariant
            k <= cs.len(),
            forall|j: int| 0 <= j < k ==> cs@[j] == '/',
        decreases cs.len() - k,
    {
        k = k + 1;
    }
    proof {
        lemma_strip_slashes_at(cs@, k as int);
    }
    string_from_chars(&subvec(&cs, k, cs.len()))
}

/// A position after all leading slashes marks the stripped remainder.
pub proof fn lemma_strip_slashes_at(s: Seq<char>, k: int)
    requires
        0 <= k <= s.len(),
        forall|j: int| 0 <= j < k ==> s[j] == '/',
        k < s.len() ==> s[k] != '/',
    ensures
        strip_slashes(s) == s.subrange(k, s.len() as int),
    decreases s.len(),
{
    if s.len() > 0 && s[0] == '/' {
        assert(k > 0);
        assert forall|j: int| 0 <= j < k - 1 implies s.skip(1)[j] == '/' by {
            assert(s.skip(1)[j] == s[j + 1]);
        }
        lemma_strip_slashes_at(s.skip(1), k - 1);
        assert(s.skip(1).subrange(k - 1, s.skip(1).len() as int) =~= s.subrange(
            k,
            s.len() as int,
        ));
    } else {
        assert(k == 0);
        assert(s.subrange(0, s.len() as int) =~= s);
    }
}

/// An ssh-style reference is well-formed when it holds exactly one `@` and
/// the part after it holds a `:`.
pub open spec fn sftp_ok(s: Seq<char>) -> bool {
    &&& s.contains('@')
    &&& forall|j: int| 0 <= j < s.len() && s[j] == '@' ==> j == first_index(s, '@')
    &&& sftp_rest(s).contains(':')
}

/// The part of an ssh-style reference before the `@`: the user.
pub open spec fn sftp_user(s: Seq<char>) -> Seq<char> {
    s.subrange(0, first_index(s, '@') as int)
}

/// The part of an ssh-style reference after the `@`.
pub open spec fn sftp_rest(s: Seq<char>) -> Seq<char> {
    s.subrange(first_index(s, '@') + 1 as int, s.len() as int)
}

/// The host part of an ssh-style reference: after the `@`, before the first
/// `:`.
pub open spec fn sftp_service(s: Seq<char>) -> Seq<char> {
    sftp_rest(s).subrange(0, first_index(sftp_rest(s), ':') as int)
}

/// The path part of an ssh-style reference: after the first `:` that follows
/// the `@`.
pub open spec fn sftp_path(s: Seq<char>) -> Seq<char> {
    sftp_rest(s).subrange(first_index(sftp_rest(s), ':') + 1 as int, sftp_rest(s).len() as int)
}

/// Split an ssh-style `user@host:path` reference into its parts.
pub fn parse_sftp(sftp_url: &str) -> (r: Result<(String, String, String), VaultError>)
    ensures
        r is Ok <==> sftp_ok(sftp_url@),
        r matches Ok(t) ==> t.0@ == sftp_user(sftp_url@) && t.1@ == sftp_service(sftp_url@)
            && t.2@ == sftp_path(sftp_url@),
        r matches Err(e) ==> e is Parse,
{
    let cs = chars_vec(sftp_url);
    proof {
        lemma_first_index(cs@, '@');
    }
    let a = match find_first(&cs, '@') {
        Some(a) => a,
        None => {
            return Err(VaultError::Parse(sftp_url.to_owned()));
        },
    };
    // A second `@` after the first makes the reference ambiguous.
    let mut j: usize = a + 1;
    while j < cs.len() && cs[j] != '@'
        invariant
            a + 1 <= j <= cs.len(),
            forall|t: int| a < t < j ==> cs@[t] != '@',
        decreases cs.len() - j,
    {
        j = j + 1;
    }
    if j < cs.len() {
        assert(cs@[j as int] == '@' && j != first_index(cs@, '@'));
        return Err(VaultError::Parse(sftp_url.to_owned()));
    }
    assert forall|t: int| 0 <= t < cs@.len() && cs@[t] == '@' implies t == first_index(
        cs@,
        '@',
    ) by {
        lemma_first_index(cs@, '@');
    }
    let rest = subvec(&cs, a + 1, cs.len());
    proof {
        assert(rest@ =~= sftp_rest(cs@));
        lemma_first_index(rest@, ':');
    }
    let b = match find_first(&rest, ':') {
        Some(b) => b,
        None => {
            return Err(VaultError::Parse(sftp_url.to_owned()));
        },
    };
    let user = string_from_chars(&subvec(&cs, 0, a));
    let service = string_from_chars(&subvec(&rest, 0, b));
    let path = string_from_chars(&subvec(&rest, b + 1, rest.len()));
    proof {
        assert(user@ =~= sftp_user(cs@));
        assert(service@ =~= sftp_service(cs@));
        assert(path@ =~= sftp_path(cs@));
    }
    Ok((user, service, path))
}

/// Parse a shorthand source string: an ssh-style reference becomes an sftp
/// source, a URL a download, a locator a git source, and anything else a
/// local path.
pub fn parse_auto_source(auto: &str) -> (r: Result<FileSource, VaultError>)
    ensures
        ({
            let s = auto@;
            if !is_repo_spec(s) && !is_url_spec(s) && s.contains('@') && s.contains(':') {
                &&& r is Ok <==> sftp_ok(s)
                &&& (r matches Ok(src) ==> src@ == SourceV::Sftp {
                    user: sftp_user(s),
                    service: sftp_service(s),
                    path: sftp_path(s),
                    port: None,
                })
            } else if is_url_spec(s) && !is_repo_spec(s) {
                r matches Ok(src) && src@ == SourceV::Download { url: s }
            } else {
                &&& r is Ok <==> simple_source_ok(s)
                &&& (r matches Ok(src) ==> src@ == simple_source_val(s))
            }
        }),
        r matches Err(e) ==> e is Parse,
{
    let cs = chars_vec(auto);
    let at = contains_char(&cs, '@');
    let colon = contains_char(&cs, ':');
    if !is_repo(auto) && !is_url(auto) && at && colon {
        let (user, service, path) = match parse_sftp(auto) {
            Ok(t) => t,
            Err(e) => {
                return Err(e);
            },
        };
        return Ok(FileSource::Sftp { user, service, path, port: None });
    }
    if is_url(auto) && !is_repo(auto) {
        return Ok(FileSource::Download { url: auto.to_owned() });
    }
    source_from_string_simple(auto)
}

/// The variable names a source requires: the names in each of its string
/// fields, deduplicated across fields.
pub open spec fn source_vars(v: SourceV) -> Seq<Seq<char>> {
    match v {
        SourceV::Auto(s) => scan_vars(s),
        SourceV::Download { url } => scan_vars(url),
        SourceV::Git { repo, id, path } => dedup_seq(
            scan_vars(repo) + scan_vars(id) + scan_vars(path),
        ),
        SourceV::Sftp { user, service, path, .. } => dedup_seq(
            scan_vars(service) + scan_vars(user) + scan_vars(path),
        ),
        SourceV::Local { path } => scan_vars(path),
        SourceV::Text { content, ignore_variables } => if ignore_variables {
            Seq::empty()
        } else {
            scan_vars(content)
        },
    }
}

/// A source with one name substituted in every string field. Inline text
/// that ignores variables is left untouched.
pub open spec fn source_subst1(v: SourceV, k: Seq<char>, val: Seq<char>) -> SourceV {
    match v {
        SourceV::Auto(s) => SourceV::Auto(subst_str(s, k, val)),
        SourceV::Download { url } => SourceV::Download { url: subst_str(url, k, val) },
        SourceV::Git { repo, id, path } => SourceV::Git {
            repo: subst_str(repo, k, val),
            id: subst_str(id, k, val),
            path: subst_str(path, k, val),
        },
        SourceV::Sftp { user, service, path, port } => SourceV::Sftp {
            user: subst_str(user, k, val),
            service: subst_str(service, k, val),
            path: subst_str(path, k, val),
            port,
        },
        SourceV::Local { path } => SourceV::Local { path: subst_str(path, k, val) },
        SourceV::Text { content, ignore_variables } => if ignore_variables {
            v
        } else {
            SourceV::Text { content: subst_str(content, k, val), ignore_variables }
        },
    }
}

/// A source with a list of names substituted, in order, in every string
/// field.
pub open spec fn source_folded(
    v: SourceV,
    names: Seq<Seq<char>>,
    m: Seq<(String, String)>,
) -> SourceV {
    match v {
        SourceV::Auto(s) => SourceV::Auto(fold_subst_str(s, names, m)),
        SourceV::Download { url } => SourceV::Download { url: fold_subst_str(url, names, m) },
        SourceV::Git { repo, id, path } => SourceV::Git {
            repo: fold_subst_str(repo, names, m),
            id: fold_subst_str(id, names, m),
            path: fold_subst_str(path, names, m),
        },
        SourceV::Sftp { user, service, path, port } => SourceV::Sftp {
            user: fold_subst_str(user, names, m),
            service: fold_subst_str(service, names, m),
            path: fold_subst_str(path, names, m),
            port,
        },
        SourceV::Local { path } => SourceV::Local { path: fold_subst_str(path, names, m) },
        SourceV::Text { content, ignore_variables } => if ignore_variables {
            v
        } else {
            SourceV::Text { content: fold_subst_str(content, names, m), ignore_variables }
        },
    }
}

impl VariableCompletion for FileSource {
    fn required_variables(&self) -> (r: Vec<String>)
        ensures
            r.deep_view() == source_vars(self@),
    {
        match self {
            FileSource::Auto(s) => s.required_variables(),
            FileSource::Download { url } => url.required_variables(),
            FileSource::Git { repo, id, path } => union3(
                repo.required_variables(),
                id.required_variables(),
                path.required_variables(),
            ),
            FileSource::Sftp { user, service, path, .. } => union3(
                service.required_variables(),
                user.required_variables(),
                path.required_variables(),
            ),
            FileSource::Local { path } => path.required_variables(),
            FileSource::Text { content, ignore_variables } => {
                if *ignore_variables {
                    let r: Vec<String> = Vec::new();
                    proof {
                        assert(r.deep_view() =~~= Seq::<Seq<char>>::empty());
                    }
                    r
                } else {
                    content.required_variables()
                }
            },
        }
    }

    fn set_single_variable(&self, key: &str, value: &str) -> (r: Self)
        ensures
            r@ == source_subst1(self@, key@, value@),
    {
        match self {
            FileSource::Auto(s) => FileSource::Auto(subst_string(s.as_str(), key, value)),
            FileSource::Download { url } => FileSource::Download {
                url: subst_string(url.as_str(), key, value),
            },
            FileSource::Git { repo, id, path } => FileSource::Git {
                repo: subst_string(repo.as_str(), key, value),
                id: subst_string(id.as_str(), key, value),
                path: subst_string(path.as_str(), key, value),
            },
            FileSource::Sftp { user, service, path, port } => FileSource::Sftp {
                user: subst_string(user.as_str(), key, value),
                service: subst_string(service.as_str(), key, value),
                path: subst_string(path.as_str(), key, value),
                port: *port,
            },
            FileSource::Local { path } => FileSource::Local {
                path: subst_string(path.as_str(), key, value),
            },
            FileSource::Text { content, ignore_variables } => {
                if *ignore_variables {
                    self.duplicate()
                } else {
                    FileSource::Text {
                        content: subst_string(content.as_str(), key, value),
                        ignore_variables: *ignore_variables,
                    }
                }
            },
        }
    }

    fn set_variables(&self, map: &Vec<(String, String)>) -> (r: Result<Self, VaultError>)
        ensures
            r is Ok <==> all_bound(source_vars(self@), map@),
            r matches Ok(v) ==> v@ == source_folded(self@, source_vars(self@), map@),
            r matches Err(e) ==> e is Variable && source_vars(self@).contains(e.detail_view())
                && crate::variables::lookup_var(map@, e.detail_view()) is None,
    {
        let names = self.required_variables();
        if let Err(e) = check_all_bound(&names, map) {
            return Err(e);
        }
        Ok(fold_filesource(self, &names, map))
    }
}

/// Apply a list of named substitutions to every string field of a source.
pub(crate) fn fold_filesource(s: &FileSource, names: &Vec<String>, map: &Vec<(String, String)>)
    -> (r: FileSource)
    ensures
        r@ == source_folded(s@, names.deep_view(), map@),
{
    match s {
        FileSource::Auto(a) => FileSource::Auto(apply_all_string(a, names, map)),
        FileSource::Download { url } => FileSource::Download {
            url: apply_all_string(url, names, map),
        },
        FileSource::Git { repo, id, path } => FileSource::Git {
            repo: apply_all_string(repo, names, map),
            id: apply_all_string(id, names, map),
            path: apply_all_string(path, names, map),
        },
        FileSource::Sftp { user, service, path, port } => FileSource::Sftp {
            user: apply_all_string(user, names, map),
            service: apply_all_string(service, names, map),
            path: apply_all_string(path, names, map),
            port: *port,
        },
        FileSource::Local { path } => FileSource::Local { path: apply_all_string(path, names, map) },
        FileSource::Text { content, ignore_variables } => {
            if *ignore_variables {
                s.duplicate()
            } else {
                FileSource::Text {
                    content: apply_all_string(content, names, map),
                    ignore_variables: *ignore_variables,
                }
            }
        },
    }
}

/// How fetched content is decrypted, where a source declares encryption at
/// all. Decryption itself is outside work done by the surrounding program;
/// the library only carries the declared method.
#[derive(Debug, Clone, Copy, PartialEq, Eq, Structural)]
pub enum DecryptionMethod {
    Plain,
    AgeV1,
}

impl Default for DecryptionMethod {
    fn default() -> (r: Self)
        ensures
            r == DecryptionMethod::Plain,
    {
        DecryptionMethod::Plain
    }
}

} // verus!
