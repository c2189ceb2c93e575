//! Git repository URLs and commit ids as the store keeps them.
//!
//! A repository URL is kept as the exact text it was given as, password included, so that it
//! reads back byte for byte. A commit id is kept as its 20 bytes and written as 40 hex digits.
use vstd::prelude::*;

verus! {

/// Whether gix-url accepts `s` as a Git URL.
pub uninterp spec fn is_git_url(s: Seq<char>) -> bool;

/// Relies on `gix_url::Url::from_bytes`: whether it parses the text; the answer depends on the
/// text alone.
#[verifier::external_body]
fn parses_as_git_url(s: &str) -> (r: bool)
    ensures
        r == is_git_url(s@),
{
    gix_url::Url::from_bytes(bstr::BStr::new(s)).is_ok()
}

/// Why a Git value could not be read.
#[derive(Clone, Copy, Debug, PartialEq, Eq, Structural)]
pub enum GitError {
    /// The text is not a Git URL.
    InvalidUrl,
    /// The text is not 40 hex digits.
    InvalidCommit,
}

/// The URL of the Git repository a build comes from.
#[derive(Debug, PartialEq, Eq)]
pub struct GitRepo {
    url: String,
}

impl View for GitRepo {
    type V = Seq<char>;

    closed spec fn view(&self) -> Seq<char> {
        self.url@
    }
}

impl GitRepo {
    #[verifier::type_invariant]
    spec fn inv(&self) -> bool {
        is_git_url(self.url@)
    }

    /// The repository at `url`, where gix-url accepts it as a Git URL.
    pub fn parse(url: &str) -> (r: Result<GitRepo, GitError>)
        ensures
            r is Ok <==> is_git_url(url@),
            r matches Ok(g) ==> g@ == url@,
            r matches Err(e) ==> e == GitError::InvalidUrl,
    {
        if parses_as_git_url(url) {
            Ok(GitRepo { url: url.to_owned() })
        } else {
            Err(GitError::InvalidUrl)
        }
    }

    /// The text the store keeps: the URL exactly as it was given.
    pub fn encode(&self) -> (r: String)
        ensures
            r@ == self@,
            is_git_url(r@),
    {
        proof {
            use_type_invariant(self);
        }
        self.url.clone()
    }

    /// The repository that stored text stands for.
    pub fn decode(text: &str) -> (r: Result<GitRepo, GitError>)
        ensures
            r is Ok <==> is_git_url(text@),
            r matches Ok(g) ==> g@ == text@,
    {
        GitRepo::parse(text)
    }

    pub fn duplicate(&self) -> (r: GitRepo)
        ensures
            r@ == self@,
    {
        proof {
            use_type_invariant(self);
        }
        GitRepo { url: self.url.clone() }
    }

    pub fn equals(&self, other: &GitRepo) -> (r: bool)
        ensures
            r <==> self@ == other@,
    {
        self.url == other.url
    }
}

/// The value of a hex digit of either case, or -1.
pub open spec fn hex_val(c: char) -> int {
    if '0' <= c && c <= '9' {
        c as int - '0' as int
    } else if 'a' <= c && c <= 'f' {
        c as int - 'a' as int + 10
    } else if 'A' <= c && c <= 'F' {
        c as int - 'A' as int + 10
    } else {
        -1
    }
}

/// The lowercase hex digit of `v`, for `0 <= v < 16`.
pub open spec fn hex_digit(v: int) -> char {
    if v < 10 {
        ('0' as int + v) as char
    } else {
        ('a' as int + v - 10) as char
    }
}

/// Forty hex digits: the text form of a SHA-1 object id.
pub open spec fn is_sha1_hex(s: Seq<char>) -> bool {
    s.len() == 40 && forall|i: int| 0 <= i < s.len() ==> hex_val(#[trigger] s[i]) >= 0
}

/// The bytes that pairs of hex digits spell, high digit first.
pub open spec fn hex_decode(s: Seq<char>) -> Seq<u8> {
    Seq::new(s.len() / 2, |i: int| (hex_val(s[2 * i]) * 16 + hex_val(s[2 * i + 1])) as u8)
}

/// Two lowercase hex digits for each byte, high digit first.
pub open spec fn hex_encode(b: Seq<u8>) -> Seq<char> {
    Seq::new(
        2 * b.len(),
        |i: int|
            if i % 2 == 0 {
                hex_digit(b[i / 2] as int / 16)
            } else {
                hex_digit(b[i / 2] as int % 16)
            },
    )
}

/// Relies on `gix_hash::ObjectId::from_hex` (with SHA-1 the only kind enabled): 40 hex digits
/// of either case give the 20 bytes they spell, and any other text is an error.
#[verifier::external_body]
fn object_id_from_hex(s: &str) -> (r: Option<Vec<u8>>)
    ensures
        r is Some <==> is_sha1_hex(s@),
        r matches Some(b) ==> b@ == hex_decode(s@),
{
    gix_hash::ObjectId::from_hex(s.as_bytes()).ok().map(|id| id.as_slice().to_vec())
}

/// Relies on `gix_hash::ObjectId::from_bytes_or_panic` (which panics unless given 20 bytes)
/// and on `to_hex`, which writes two lowercase hex digits per byte.
#[verifier::external_body]
fn object_id_to_hex(b: &Vec<u8>) -> (r: String)
    requires
        b@.len() == 20,
    ensures
        r@ == hex_encode(b@),
{
    gix_hash::ObjectId::from_bytes_or_panic(b.as_slice()).to_hex().to_string()
}

/// The id of the Git commit a build comes from: a SHA-1 digest.
#[derive(Debug, PartialEq, Eq)]
pub struct GitCommit {
    id: Vec<u8>,
}

impl View for GitCommit {
    type V = Seq<u8>;

    closed spec fn view(&self) -> Seq<u8> {
        self.id@
    }
}

impl GitCommit {
    #[verifier::type_invariant]
    spec fn inv(&self) -> bool {
        self.id@.len() == 20
    }

    /// The commit that 40 hex digits of either case name.
    pub fn from_hex(hex: &str) -> (r: Result<GitCommit, GitError>)
        ensures
            r is Ok <==> is_sha1_hex(hex@),
            r matches Ok(c) ==> c@ == hex_decode(hex@),
            r matches Err(e) ==> e == GitError::InvalidCommit,
    {
        match object_id_from_hex(hex) {
            Some(id) => Ok(GitCommit { id }),
            None => Err(GitError::InvalidCommit),
        }
    }

    /// The 40 lowercase hex digits that the store keeps.
    pub fn to_hex(&self) -> (r: String)
        ensures
            r@ == hex_encode(self@),
            self@.len() == 20,
    {
        proof {
            use_type_invariant(self);
        }
        object_id_to_hex(&self.id)
    }

    /// The 20 bytes of the digest.
    pub fn as_bytes(&self) -> (r: &Vec<u8>)
        ensures
            r@ == self@,
            r@.len() == 20,
    {
        proof {
            use_type_invariant(self);
        }
        &self.id
    }

    pub fn duplicate(&self) -> (r: GitCommit)
        ensures
            r@ == self@,
    {
        proof {
            use_type_invariant(self);
        }
        GitCommit { id: self.id.clone() }
    }

    pub fn equals(&self, other: &GitCommit) -> (r: bool)
        ensures
            r <==> self@ == other@,
    {
        let n = self.id.len();
        if n != other.id.len() {
            return false;
        }
        let mut i: usize = 0;
        while i < n
            invariant
                n == self.id@.len() == other.id@.len(),
                i <= n,
                forall|j: int| 0 <= j < i ==> self.id@[j] == other.id@[j],
            decreases n - i,
        {
            if self.id[i] != other.id[i] {
                return false;
            }
            i = i + 1;
        }
        proof {
            assert(self.id@ =~= other.id@);
        }
        true
    }
}

proof fn lemma_hex_digit(v: int)
    requires
        0 <= v < 16,
    ensures
        hex_val(hex_digit(v)) == v,
{
}

/// A commit id written as hex reads back as the same id: the text is 40 hex digits and
/// spells the same 20 bytes.
pub proof fn lemma_commit_hex_round_trip(b: Seq<u8>)
    requires
        b.len() == 20,
    ensures
        is_sha1_hex(hex_encode(b)),
        hex_decode(hex_encode(b)) == b,
{
    let h = hex_encode(b);
    assert forall|i: int| 0 <= i < h.len() implies hex_val(#[trigger] h[i]) >= 0 by {
        if i % 2 == 0 {
            lemma_hex_digit(b[i / 2] as int / 16);
        } else {
            lemma_hex_digit(b[i / 2] as int % 16);
        }
    }
    assert forall|i: int| 0 <= i < b.len() implies #[trigger] hex_decode(h)[i] == b[i] by {
        assert((2 * i) / 2 == i);
        assert((2 * i + 1) / 2 == i);
        assert((2 * i) % 2 == 0);
        assert((2 * i + 1) % 2 == 1);
        lemma_hex_digit(b[i] as int / 16);
        lemma_hex_digit(b[i] as int % 16);
    }
    assert(hex_decode(h) =~= b);
}

} // verus!
