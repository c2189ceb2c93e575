//! Derivations, their identifiers and the store prefix.
use vstd::prelude::*;
use vstd::string::*;

verus! {

/// The location of the store, as it prefixes every full derivation path.
pub open spec fn store_prefix() -> Seq<char> {
    seq!['/', 'n', 'i', 'x', '/', 's', 't', 'o', 'r', 'e', '/']
}

/// `s` without the store prefix, or `s` itself where it does not start with it.
pub open spec fn spec_strip_store_prefix(s: Seq<char>) -> Seq<char> {
    if store_prefix().is_prefix_of(s) {
        s.subrange(store_prefix().len() as int, s.len() as int)
    } else {
        s
    }
}

/// A derivation identifier of the form `hash-name.drv`, without the store prefix.
///
/// Identifiers compare byte for byte.
#[derive(Clone, Debug, PartialEq, Eq)]
pub struct DrvId(String);

impl View for DrvId {
    type V = Seq<char>;

    closed spec fn view(&self) -> Seq<char> {
        self.0@
    }
}

impl DrvId {
    /// The identifier of a derivation given by its name or by its full store path.
    pub fn new(path: &str) -> (r: DrvId)
        ensures
            r@ == spec_strip_store_prefix(path@),
    {
        DrvId(strip_store_prefix(path.to_owned()))
    }

    /// The identifier `id`, taken as it is.
    pub fn from_string(id: String) -> (r: DrvId)
        ensures
            r@ == id@,
    {
        DrvId(id)
    }

    pub fn as_str(&self) -> (r: &str)
        ensures
            r@ == self@,
    {
        self.0.as_str()
    }

    pub fn duplicate(&self) -> (r: DrvId)
        ensures
            r@ == self@,
    {
        DrvId(self.0.clone())
    }

    pub fn equals(&self, other: &DrvId) -> (r: bool)
        ensures
            r <==> self@ == other@,
    {
        self.0 == other.0
    }
}

/// A derivation as the store records it.
#[derive(Clone, Debug)]
pub struct Drv {
    /// The derivation's identifier, without the store prefix.
    pub drv_path: String,
    /// The platform the derivation builds for.
    pub system: String,
}

impl Drv {
    pub fn new(drv_path: String, system: String) -> (r: Drv)
        ensures
            r.drv_path@ == spec_strip_store_prefix(drv_path@),
            r.system@ == system@,
    {
        Drv { drv_path: strip_store_prefix(drv_path), system }
    }

    /// The derivation's path inside the store.
    pub fn full_drv_path(&self) -> (r: String)
        ensures
            r@ == store_prefix() + self.drv_path@,
    {
        let prefix = String::from_str("/nix/store/");
        proof {
            reveal_strlit("/nix/store/");
            assert(prefix@ =~= store_prefix());
        }
        prefix.concat(self.drv_path.as_str())
    }
}

/// Whether `s` starts with the store prefix.
fn has_store_prefix(s: &str) -> (r: bool)
    ensures
        r == store_prefix().is_prefix_of(s@),
{
    let p = "/nix/store/";
    proof {
        reveal_strlit("/nix/store/");
        assert(p@ =~= store_prefix());
    }
    let n = s.unicode_len();
    let k = p.unicode_len();
    if n < k {
        return false;
    }
    let mut i: usize = 0;
    while i < k
        invariant
            k == p@.len(),
            n == s@.len(),
            k <= n,
            p@ == store_prefix(),
            i <= k,
            forall|j: int| 0 <= j < i ==> s@[j] == p@[j],
        decreases k - i,
    {
        if s.get_char(i) != p.get_char(i) {
            return false;
        }
        i = i + 1;
    }
    proof {
        assert(store_prefix() =~= s@.subrange(0, k as int));
    }
    true
}

/// The derivation path without the store prefix.
pub fn strip_store_prefix(drv_path: String) -> (r: String)
    ensures
        r@ == spec_strip_store_prefix(drv_path@),
{
    if has_store_prefix(drv_path.as_str()) {
        let n = drv_path.as_str().unicode_len();
        drv_path.as_str().substring_char(11, n).to_owned()
    } else {
        drv_path
    }
}

/// The index of the first line feed in `s`, or its length where there is none.
pub open spec fn line_end(s: Seq<char>) -> nat
    decreases s.len(),
{
    if s.len() == 0 {
        0
    } else if s[0] == '\n' {
        0
    } else {
        1 + line_end(s.drop_first())
    }
}

/// A line without the carriage return that may end it.
pub open spec fn trim_cr(l: Seq<char>) -> Seq<char> {
    if l.len() > 0 && l.last() == '\r' {
        l.drop_last()
    } else {
        l
    }
}

/// The lines of `s`: split at each line feed, a line that ends in a line feed without the
/// carriage return before it, and with no empty line after a final line feed.
pub open spec fn lines(s: Seq<char>) -> Seq<Seq<char>>
    decreases s.len(),
{
    if s.len() == 0 {
        seq![]
    } else {
        let k = line_end(s) as int;
        if k >= s.len() {
            seq![s]
        } else {
            seq![trim_cr(s.subrange(0, k))] + lines(s.subrange(k + 1, s.len() as int))
        }
    }
}

pub open spec fn ends_with_drv(l: Seq<char>) -> bool {
    l.len() >= 4 && l.subrange(l.len() - 4, l.len() as int) == seq!['.', 'd', 'r', 'v']
}

/// The lines that name a derivation, in order.
pub open spec fn drv_lines(ls: Seq<Seq<char>>) -> Seq<Seq<char>>
    decreases ls.len(),
{
    if ls.len() == 0 {
        seq![]
    } else {
        let rest = drv_lines(ls.drop_first());
        if ends_with_drv(ls[0]) {
            seq![ls[0]] + rest
        } else {
            rest
        }
    }
}

/// What the reference query's output names as references: its lines that end in `.drv`.
pub open spec fn spec_references(output: Seq<char>) -> Seq<Seq<char>> {
    drv_lines(lines(output))
}

proof fn lemma_line_end(s: Seq<char>, k: int)
    requires
        0 <= k <= s.len(),
        forall|j: int| 0 <= j < k ==> s[j] != '\n',
        k == s.len() || s[k] == '\n',
    ensures
        line_end(s) == k,
    decreases s.len(),
{
    if s.len() > 0 && k > 0 {
        lemma_line_end(s.drop_first(), k - 1);
    }
}

fn ends_with_drv_exec(l: &str) -> (r: bool)
    ensures
        r == ends_with_drv(l@),
{
    let n = l.unicode_len();
    if n < 4 {
        return false;
    }
    let r = l.get_char(n - 4) == '.' && l.get_char(n - 3) == 'd' && l.get_char(n - 2) == 'r'
        && l.get_char(n - 1) == 'v';
    proof {
        let tail = l@.subrange(n - 4, n as int);
        if r {
            assert(tail =~= seq!['.', 'd', 'r', 'v']);
        } else {
            assert(tail[0] == l@[n - 4] && tail[1] == l@[n - 3] && tail[2] == l@[n - 2] && tail[3]
                == l@[n - 1]);
        }
    }
    r
}

/// The line `s[start..end]` without a final carriage return.
fn trimmed_line(s: &str, start: usize, end: usize) -> (r: &str)
    requires
        start <= end <= s@.len(),
    ensures
        r@ == trim_cr(s@.subrange(start as int, end as int)),
{
    if end > start && s.get_char(end - 1) == '\r' {
        let r = s.substring_char(start, end - 1);
        proof {
            assert(r@ =~= s@.subrange(start as int, end as int).drop_last());
        }
        r
    } else {
        s.substring_char(start, end)
    }
}

/// The direct references that the reference query printed: each output line that ends in
/// `.drv`, in order. Other lines name sources that are not derivations.
pub fn parse_references(output: &str) -> (r: Vec<String>)
    ensures
        r@.map_values(|x: String| x@) == spec_references(output@),
{
    let n = output.unicode_len();
    let ghost s = output@;
    let mut r: Vec<String> = Vec::new();
    let mut start: usize = 0;
    let mut i: usize = 0;
    proof {
        assert(s.subrange(0, n as int) =~= s);
    }
    while i < n
        invariant
            n == s.len(),
            s == output@,
            start <= i <= n,
            forall|j: int| start <= j < i ==> s[j] != '\n',
            spec_references(s) == r@.map_values(|x: String| x@) + drv_lines(
                lines(s.subrange(start as int, n as int)),
            ),
        decreases n - i,
    {
        if output.get_char(i) == '\n' {
            let line = trimmed_line(output, start, i);
            let ghost rest = s.subrange(start as int, n as int);
            proof {
                lemma_line_end(rest, i - start);
                assert(rest.subrange(0, i - start) =~= s.subrange(start as int, i as int));
                assert(rest.subrange(i - start + 1, rest.len() as int) =~= s.subrange(
                    i + 1,
                    n as int,
                ));
                let ls = lines(rest);
                assert(ls[0] == line@);
                assert(ls.drop_first() =~= lines(s.subrange(i + 1, n as int)));
            }
            let keep = ends_with_drv_exec(line);
            let ghost old_r = r@.map_values(|x: String| x@);
            if keep {
                r.push(line.to_owned());
                proof {
                    assert(r@.map_values(|x: String| x@) =~= old_r + seq![line@]);
                }
            }
            start = i + 1;
        }
        i = i + 1;
    }
    if start < n {
        let line = output.substring_char(start, n);
        let ghost rest = s.subrange(start as int, n as int);
        proof {
            lemma_line_end(rest, n - start);
            assert(rest.subrange(0, n - start) =~= rest);
            assert(lines(rest) =~= seq![line@]);
            assert(seq![line@].drop_first() =~= Seq::<Seq<char>>::empty());
            assert(drv_lines(Seq::<Seq<char>>::empty()) =~= Seq::<Seq<char>>::empty());
            assert(drv_lines(lines(rest)) == if ends_with_drv(line@) {
                seq![line@]
            } else {
                Seq::<Seq<char>>::empty()
            });
        }
        let ghost old_r = r@.map_values(|x: String| x@);
        if ends_with_drv_exec(line) {
            r.push(line.to_owned());
            proof {
                assert(r@.map_values(|x: String| x@) =~= old_r + seq![line@]);
            }
        }
    } else {
        proof {
            assert(s.subrange(start as int, n as int) =~= Seq::<char>::empty());
            assert(drv_lines(lines(Seq::<char>::empty())) =~= Seq::<Seq<char>>::empty());
        }
    }
    proof {
        assert(r@.map_values(|x: String| x@) =~= r@.map_values(|x: String| x@) + Seq::<
            Seq<char>,
        >::empty());
    }
    r
}

} // verus!
