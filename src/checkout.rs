//! Where the checkouts of a pull request's repository live, and how it is reached.
use vstd::prelude::*;
use vstd::string::*;

verus! {

/// A pull request to evaluate: the commits of its head and base and where its repository is.
#[derive(Debug)]
pub struct PREvalInfo {
    /// Commit of the pull request branch's head.
    pub head_commit: String,
    /// Commit of the target branch.
    pub base_commit: String,
    pub domain: String,
    pub owner: String,
    pub repo: String,
}

/// Characters that a directory name must not hold.
pub open spec fn is_unsafe_char(c: char) -> bool {
    c == '.' || c == '?' || c == '/' || c == '+' || c == '\\'
}

/// `s` with each unsafe character replaced by `-`.
pub open spec fn sanitized(s: Seq<char>) -> Seq<char> {
    Seq::new(s.len(), |i: int| if is_unsafe_char(s[i]) { '-' } else { s[i] })
}

/// `s` with each unsafe character replaced by `-`.
pub fn sanitize(s: &str) -> (r: String)
    ensures
        r@ == sanitized(s@),
{
    let n = s.unicode_len();
    let dash = "-";
    proof {
        reveal_strlit("-");
    }
    let mut r = String::new();
    let mut i: usize = 0;
    while i < n
        invariant
            n == s@.len(),
            i <= n,
            dash@ == seq!['-'],
            r@ == sanitized(s@).subrange(0, i as int),
        decreases n - i,
    {
        let c = s.get_char(i);
        let piece = if c == '.' || c == '?' || c == '/' || c == '+' || c == '\\' {
            dash
        } else {
            s.substring_char(i, i + 1)
        };
        proof {
            assert(piece@ =~= seq![sanitized(s@)[i as int]]);
        }
        r = r.concat(piece);
        proof {
            assert(r@ =~= sanitized(s@).subrange(0, i + 1));
        }
        i = i + 1;
    }
    proof {
        assert(sanitized(s@).subrange(0, n as int) =~= sanitized(s@));
    }
    r
}

/// `a` followed by `b`.
fn join(a: String, b: &str) -> (r: String)
    ensures
        r@ == a@ + b@,
{
    a.concat(b)
}

/// `a`, a slash, and `b`.
fn join_path(a: String, b: &str) -> (r: String)
    ensures
        r@ == a@ + seq!['/'] + b@,
{
    let slash = "/";
    proof {
        reveal_strlit("/");
    }
    let r = a.concat(slash).concat(b);
    proof {
        assert(slash@ =~= seq!['/']);
    }
    r
}

impl PREvalInfo {
    /// The directory that holds the worktrees, under `root`.
    pub open spec fn spec_worktree_dir(&self, root: Seq<char>) -> Seq<char> {
        root + seq!['/', 'r', 'e', 'p', 'o', 's', '/'] + sanitized(
            self.domain@ + seq!['-'] + self.owner@ + seq!['-'] + self.repo@,
        ) + seq!['/', 'w', 'o', 'r', 'k', 't', 'r', 'e', 'e', 's']
    }

    /// `domain-owner-repo`, with each unsafe character replaced by `-`.
    pub fn worktree_name(&self) -> (r: String)
        ensures
            r@ == sanitized(self.domain@ + seq!['-'] + self.owner@ + seq!['-'] + self.repo@),
    {
        let dash = "-";
        proof {
            reveal_strlit("-");
            assert(dash@ =~= seq!['-']);
        }
        let name = join(join(join(join(self.domain.clone(), dash), self.owner.as_str()), dash), self.repo.as_str());
        sanitize(name.as_str())
    }

    /// The ref, specific to this project, under which `git_ref` is fetched.
    pub fn git_ref(&self, git_ref: &str) -> (r: String)
        ensures
            r@ == seq!['r', 'e', 'f', 's', '/', 'e', 'k', 'a', '-', 'c', 'i', '/'] + self.repo@ + seq!['/'] + git_ref@,
    {
        let prefix = String::from_str("refs/eka-ci");
        proof {
            reveal_strlit("refs/eka-ci");
            assert(prefix@ =~= seq!['r', 'e', 'f', 's', '/', 'e', 'k', 'a', '-', 'c', 'i']);
        }
        let r = join_path(join_path(prefix, self.repo.as_str()), git_ref);
        proof {
            assert(r@ =~= seq!['r', 'e', 'f', 's', '/', 'e', 'k', 'a', '-', 'c', 'i', '/'] + self.repo@ + seq!['/'] + git_ref@);
        }
        r
    }

    /// The directory of this repository under `git_tree_root`.
    pub fn repo_dir(&self, git_tree_root: &str) -> (r: String)
        ensures
            r@ == git_tree_root@ + seq!['/', 'r', 'e', 'p', 'o', 's', '/'] + sanitized(
                self.domain@ + seq!['-'] + self.owner@ + seq!['-'] + self.repo@,
            ),
    {
        let repos = String::from_str("repos");
        proof {
            reveal_strlit("repos");
        }
        let base = join_path(git_tree_root.to_owned(), repos.as_str());
        let name = self.worktree_name();
        let r = join_path(base, name.as_str());
        proof {
            assert(r@ =~= git_tree_root@ + seq!['/', 'r', 'e', 'p', 'o', 's', '/'] + name@);
        }
        r
    }

    /// The main checkout of the repository.
    pub fn default_branch_dir(&self, git_tree_root: &str) -> (r: String)
        ensures
            r@ == git_tree_root@ + seq!['/', 'r', 'e', 'p', 'o', 's', '/'] + sanitized(
                self.domain@ + seq!['-'] + self.owner@ + seq!['-'] + self.repo@,
            ) + seq!['/', 'd', 'e', 'f', 'a', 'u', 'l', 't'],
    {
        let leaf = "default";
        proof {
            reveal_strlit("default");
        }
        let r = join_path(self.repo_dir(git_tree_root), leaf);
        proof {
            assert(leaf@ =~= seq!['d', 'e', 'f', 'a', 'u', 'l', 't']);
        }
        r
    }

    /// The directory that holds the worktrees of single commits.
    pub fn worktree_dir(&self, git_tree_root: &str) -> (r: String)
        ensures
            r@ == self.spec_worktree_dir(git_tree_root@),
    {
        let leaf = "worktrees";
        proof {
            reveal_strlit("worktrees");
        }
        let r = join_path(self.repo_dir(git_tree_root), leaf);
        proof {
            assert(leaf@ =~= seq!['w', 'o', 'r', 'k', 't', 'r', 'e', 'e', 's']);
        }
        r
    }

    /// The file whose presence says that the repository was cloned already.
    pub fn already_checkedout_file(&self, git_tree_root: &str) -> (r: String)
        ensures
            r@ == git_tree_root@ + seq!['/', 'r', 'e', 'p', 'o', 's', '/'] + sanitized(
                self.domain@ + seq!['-'] + self.owner@ + seq!['-'] + self.repo@,
            ) + seq!['/', 'a', 'l', 'r', 'e', 'a', 'd', 'y', '_', 'c', 'h', 'e', 'c', 'k', 'e', 'd', 'o', 'u', 't'],
    {
        let leaf = "already_checkedout";
        proof {
            reveal_strlit("already_checkedout");
        }
        let r = join_path(self.repo_dir(git_tree_root), leaf);
        proof {
            assert(leaf@ =~= seq!['a', 'l', 'r', 'e', 'a', 'd', 'y', '_', 'c', 'h', 'e', 'c', 'k', 'e', 'd', 'o', 'u', 't']);
        }
        r
    }

    /// `git@domain/owner/repo.git`
    pub fn git_ssh_url(&self) -> (r: String)
        ensures
            r@ == seq!['g', 'i', 't', '@'] + self.domain@ + seq!['/'] + self.owner@ + seq!['/'] + self.repo@
                + seq!['.', 'g', 'i', 't'],
    {
        let head = String::from_str("git@");
        let tail = ".git";
        proof {
            reveal_strlit("git@");
            reveal_strlit(".git");
        }
        let r = join(join_path(join_path(join(head, self.domain.as_str()), self.owner.as_str()), self.repo.as_str()), tail);
        proof {
            assert(head@ =~= seq!['g', 'i', 't', '@']);
            assert(tail@ =~= seq!['.', 'g', 'i', 't']);
            assert(r@ =~= seq!['g', 'i', 't', '@'] + self.domain@ + seq!['/'] + self.owner@ + seq!['/'] + self.repo@
                + seq!['.', 'g', 'i', 't']);
        }
        r
    }

    /// `https://domain/owner/repo`
    pub fn git_https_url(&self) -> (r: String)
        ensures
            r@ == seq!['h', 't', 't', 'p', 's', ':', '/', '/'] + self.domain@ + seq!['/'] + self.owner@ + seq!['/']
                + self.repo@,
    {
        let head = String::from_str("https://");
        proof {
            reveal_strlit("https://");
            assert(head@ =~= seq!['h', 't', 't', 'p', 's', ':', '/', '/']);
        }
        let r = join_path(join_path(join(head, self.domain.as_str()), self.owner.as_str()), self.repo.as_str());
        proof {
            assert(r@ =~= seq!['h', 't', 't', 'p', 's', ':', '/', '/'] + self.domain@ + seq!['/'] + self.owner@ + seq!['/']
                + self.repo@);
        }
        r
    }

    /// The worktree directories of the head and of the base commit.
    pub fn checkout(&self, git_tree_root: &str) -> (r: (String, String))
        ensures
            r.0@ == self.spec_worktree_dir(git_tree_root@) + seq!['/'] + self.head_commit@,
            r.1@ == self.spec_worktree_dir(git_tree_root@) + seq!['/'] + self.base_commit@,
    {
        let head_tree = join_path(self.worktree_dir(git_tree_root), self.head_commit.as_str());
        let base_tree = join_path(self.worktree_dir(git_tree_root), self.base_commit.as_str());
        (head_tree, base_tree)
    }
}

} // verus!
