//! The activation context: where the activation file is, and where its
//! cached diff is kept.
//!
//! The cache file of an activation file is named by a hash of the file's
//! absolute path, not of its content: editing the file leaves the cache in
//! place until the next reload.

use vstd::prelude::*;
use vstd::slice::slice_to_vec;
use crate::bytes::{append_bytes, ascii_bytes, literal_bytes, SLASH};
use crate::error::Error;

verus! {

/// The BLAKE3 hash of `data`: a digest that depends on `data` alone.
pub uninterp spec fn blake3_digest(data: Seq<u8>) -> Seq<u8>;

/// `blake3::hash`, the default BLAKE3 hash function, with the digest copied
/// out of the `Hash` it returns. The digest is the function's value on the
/// input and has 32 bytes; nothing else is claimed.
#[verifier::external_body]
fn blake3_hash(data: &[u8]) -> (digest: Vec<u8>)
    ensures
        digest@ == blake3_digest(data@),
        digest@.len() == 32,
{
    blake3::hash(data).as_bytes().to_vec()
}

/// The lower-case hexadecimal digit for a value below 16.
pub open spec fn hex_digit(value: int) -> u8 {
    if value < 10 {
        (48 + value) as u8
    } else {
        (87 + value) as u8
    }
}

/// Lower-case hexadecimal: two digits for each byte, the high half first.
pub open spec fn spec_hex(data: Seq<u8>) -> Seq<u8> {
    Seq::new(
        2 * data.len(),
        |i: int|
            if i % 2 == 0 {
                hex_digit(data[i / 2] as int / 16)
            } else {
                hex_digit(data[i / 2] as int % 16)
            },
    )
}

/// `hex::encode`, with the bytes of the string it returns: each byte of the
/// input as two lower-case hexadecimal digits.
#[verifier::external_body]
fn hex_encode(data: &[u8]) -> (text: Vec<u8>)
    ensures
        text@ == spec_hex(data@),
{
    hex::encode(data).into_bytes()
}

/// The cache key of an activation file: the hash of its path, in
/// hexadecimal.
pub open spec fn spec_cache_key(envrc_path: Seq<u8>) -> Seq<u8> {
    spec_hex(blake3_digest(envrc_path))
}

/// The name of the cache file for a digest: the digest in hexadecimal.
pub fn cache_file_name(digest: &[u8]) -> (name: Vec<u8>)
    ensures
        name@ == spec_hex(digest@),
{
    hex_encode(digest)
}

/// Computes the cache key of the activation file at `envrc_path`: the 256
/// bits of the hash as 64 hexadecimal digits.
pub fn cache_key(envrc_path: &[u8]) -> (key: Vec<u8>)
    ensures
        key@ == spec_cache_key(envrc_path@),
        key@.len() == 64,
{
    let digest = blake3_hash(envrc_path);
    cache_file_name(digest.as_slice())
}

/// A path extended by another. An absolute `rel` replaces `base`; otherwise
/// `rel` follows `base`, after a slash where `base` does not end in one.
pub open spec fn spec_join(base: Seq<u8>, rel: Seq<u8>) -> Seq<u8> {
    if rel.len() > 0 && rel[0] == SLASH {
        rel
    } else if base.len() > 0 && base.last() != SLASH {
        base + seq![SLASH] + rel
    } else {
        base + rel
    }
}

/// Extends the path `base` by `rel`.
pub fn join_path(base: &[u8], rel: &[u8]) -> (path: Vec<u8>)
    ensures
        path@ == spec_join(base@, rel@),
{
    if rel.len() > 0 && rel[0] == SLASH {
        return slice_to_vec(rel);
    }
    let mut path = slice_to_vec(base);
    if base.len() > 0 && base[base.len() - 1] != SLASH {
        path.push(SLASH);
    }
    append_bytes(&mut path, rel);
    path
}

/// The name of the activation file.
pub open spec fn envrc_name() -> Seq<u8> {
    ascii_bytes(".envrc"@)
}

/// The directory of the cache files, below the tool's home.
pub open spec fn envs_dir_name() -> Seq<u8> {
    ascii_bytes("envs/"@)
}

/// The directory of the shims, below the tool's home.
pub open spec fn bin_dir_name() -> Seq<u8> {
    ascii_bytes("bin"@)
}

/// The tool's home, below the user's home directory.
pub open spec fn home_dir_name() -> Seq<u8> {
    ascii_bytes(".quickenv/"@)
}

/// Where the activation file of the directory `dir` would be.
pub open spec fn spec_envrc_candidate(dir: Seq<u8>) -> Seq<u8> {
    spec_join(dir, envrc_name())
}

/// The path to try in `dir` while looking for the activation file. The
/// search starts in the working directory and goes up, directory by
/// directory, until a candidate can be opened.
pub fn envrc_candidate(dir: &[u8]) -> (path: Vec<u8>)
    ensures
        path@ == spec_envrc_candidate(dir@),
{
    proof {
        reveal_strlit(".envrc");
    }
    join_path(dir, literal_bytes(".envrc"))
}

/// What the search found in one directory.
#[derive(Debug)]
pub enum Probe {
    /// The directory holds no activation file.
    Absent,
    /// The directory holds an activation file, and it was opened.
    Opened,
    /// The directory holds an activation file, and it could not be opened.
    OpenFailed(std::io::Error),
}

/// How the search goes on after one directory.
#[derive(Debug)]
pub enum SearchStep {
    /// The activation file is found: the directory is the root of the
    /// context.
    Found,
    /// The search goes on in the parent directory.
    Ascend,
    /// The search ends without a context.
    Fail(Error),
}

/// One step of the search for the activation file, which starts in the
/// working directory. An activation file that cannot be opened ends the
/// search with the failure of the system; a search that reaches the root of
/// the file system without finding one ends with `NoEnvrc`.
pub fn search_step(probe: Probe, has_parent: bool) -> (step: SearchStep)
    ensures
        match probe {
            Probe::Opened => step is Found,
            Probe::OpenFailed(e) => step == SearchStep::Fail(Error::Io(e)),
            Probe::Absent => if has_parent {
                step is Ascend
            } else {
                step == SearchStep::Fail(Error::NoEnvrc)
            },
        },
{
    match probe {
        Probe::Opened => SearchStep::Found,
        Probe::OpenFailed(e) => SearchStep::Fail(Error::Io(e)),
        Probe::Absent => if has_parent {
            SearchStep::Ascend
        } else {
            SearchStep::Fail(Error::NoEnvrc)
        },
    }
}

/// The directory of the shims of the tool whose home is `quickenv_home`.
pub open spec fn spec_shim_dir(quickenv_home: Seq<u8>) -> Seq<u8> {
    spec_join(quickenv_home, bin_dir_name())
}

/// The directory in which the shims are kept.
pub fn shim_dir(quickenv_home: &[u8]) -> (path: Vec<u8>)
    ensures
        path@ == spec_shim_dir(quickenv_home@),
{
    proof {
        reveal_strlit("bin");
    }
    join_path(quickenv_home, literal_bytes("bin"))
}

/// The path of the shim for `command`.
pub open spec fn spec_shim_path(quickenv_home: Seq<u8>, command: Seq<u8>) -> Seq<u8> {
    spec_join(spec_shim_dir(quickenv_home), command)
}

/// Where the shim for `command` is, or would be.
pub fn shim_path(quickenv_home: &[u8], command: &[u8]) -> (path: Vec<u8>)
    ensures
        path@ == spec_shim_path(quickenv_home@, command@),
{
    let dir = shim_dir(quickenv_home);
    join_path(dir.as_slice(), command)
}

/// The activation context of one invocation.
#[derive(Debug, Clone, PartialEq, Eq)]
pub struct EnvrcContext {
    /// The directory that holds the activation file.
    pub root: Vec<u8>,
    /// The activation file.
    pub envrc_path: Vec<u8>,
    /// The cache file of this context.
    pub env_cache_path: Vec<u8>,
    /// The directory of all cache files.
    pub env_cache_dir: Vec<u8>,
}

impl EnvrcContext {
    /// Whether this is the context of the activation file in `root`, for
    /// the tool whose home is `quickenv_home`.
    pub open spec fn is_context_of(&self, quickenv_home: Seq<u8>, root: Seq<u8>) -> bool {
        &&& self.root@ == root
        &&& self.envrc_path@ == spec_envrc_candidate(root)
        &&& self.env_cache_dir@ == spec_join(quickenv_home, envs_dir_name())
        &&& self.env_cache_path@ == spec_join(
            self.env_cache_dir@,
            spec_cache_key(self.envrc_path@),
        )
    }
}

/// Whether a byte is a lower-case hexadecimal digit.
pub open spec fn is_hex_digit(byte: u8) -> bool {
    (48 <= byte <= 57) || (97 <= byte <= 102)
}

/// A cache key holds two hexadecimal digits for each byte of the digest,
/// and nothing else.
pub proof fn lemma_hex_is_plain(data: Seq<u8>)
    ensures
        spec_hex(data).len() == 2 * data.len(),
        forall|i: int| 0 <= i < spec_hex(data).len() ==> is_hex_digit(#[trigger] spec_hex(data)[i]),
{
    assert forall|i: int| 0 <= i < spec_hex(data).len() implies is_hex_digit(
        #[trigger] spec_hex(data)[i],
    ) by {
        let byte = data[i / 2] as int;
        assert(0 <= byte / 16 < 16);
        assert(0 <= byte % 16 < 16);
    }
}

/// The layout of the cache: the cache file of a context lies directly in
/// the directory `envs/` of the tool's home, under the name of its key.
pub proof fn lemma_cache_file_layout(ctx: EnvrcContext, quickenv_home: Seq<u8>, root: Seq<u8>)
    requires
        ctx.is_context_of(quickenv_home, root),
    ensures
        ctx.env_cache_dir@.len() > 0,
        ctx.env_cache_dir@.last() == SLASH,
        ctx.env_cache_path@ == ctx.env_cache_dir@ + spec_cache_key(ctx.envrc_path@),
{
    reveal_strlit("envs/");
    let dir = spec_join(quickenv_home, envs_dir_name());
    assert(envs_dir_name().len() == 5);
    assert(envs_dir_name()[0] == 101u8);
    assert(envs_dir_name()[4] == SLASH);
    assert(dir[dir.len() - 1] == SLASH);
    let key = spec_cache_key(ctx.envrc_path@);
    lemma_hex_is_plain(blake3_digest(ctx.envrc_path@));
    if key.len() > 0 {
        assert(is_hex_digit(key[0]));
    }
}

/// Resolves the activation context.
///
/// `found_root` is the outcome of the search for the activation file: the
/// first directory, from the working directory upward, that holds one, or
/// `None` where the search reached the filesystem root without finding any.
pub fn resolve_envrc_context(quickenv_home: &[u8], found_root: Option<&[u8]>) -> (resolved: Result<
    EnvrcContext,
    Error,
>)
    ensures
        found_root is None <==> resolved is Err,
        resolved matches Err(e) ==> e is NoEnvrc,
        resolved matches Ok(ctx) ==> ctx.is_context_of(quickenv_home@, found_root->Some_0@),
{
    match found_root {
        None => Err(Error::NoEnvrc),
        Some(root) => {
            let envrc_path = envrc_candidate(root);
            proof {
                reveal_strlit("envs/");
            }
            let env_cache_dir = join_path(quickenv_home, literal_bytes("envs/"));
            let key = cache_key(envrc_path.as_slice());
            let env_cache_path = join_path(env_cache_dir.as_slice(), key.as_slice());
            Ok(EnvrcContext { root: slice_to_vec(root), envrc_path, env_cache_path, env_cache_dir })
        },
    }
}

/// The tool's home for the given values of the environment variables
/// `QUICKENV_HOME` and `HOME`, where they are set.
pub open spec fn spec_quickenv_home(quickenv_home_var: Option<Seq<u8>>, home_var: Option<Seq<u8>>) -> Option<
    Seq<u8>,
> {
    match quickenv_home_var {
        Some(home) => Some(home),
        None => match home_var {
            Some(home) => Some(spec_join(home, home_dir_name())),
            None => None,
        },
    }
}

/// What an optional byte string stands for in specifications.
pub open spec fn bytes_view(value: Option<&[u8]>) -> Option<Seq<u8>> {
    match value {
        Some(v) => Some(v@),
        None => None,
    }
}

/// Finds the tool's home directory: the value of `QUICKENV_HOME`, else
/// `.quickenv/` below the value of `HOME`.
pub fn get_quickenv_home(quickenv_home_var: Option<&[u8]>, home_var: Option<&[u8]>) -> (home: Result<
    Vec<u8>,
    Error,
>)
    ensures
        home is Ok <==> spec_quickenv_home(bytes_view(quickenv_home_var), bytes_view(home_var))
            is Some,
        home matches Ok(path) ==> Some(path@) == spec_quickenv_home(
            bytes_view(quickenv_home_var),
            bytes_view(home_var),
        ),
        home matches Err(e) ==> e is NoQuickenvHome,
{
    match quickenv_home_var {
        Some(home) => Ok(slice_to_vec(home)),
        None => match home_var {
            Some(home) => {
                proof {
                    reveal_strlit(".quickenv/");
                }
                Ok(join_path(home, literal_bytes(".quickenv/")))
            },
            None => Err(Error::NoQuickenvHome),
        },
    }
}

} // verus!
