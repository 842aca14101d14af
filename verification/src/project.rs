//! Source projects, publishers, and the small pure helpers of the build
//! orchestration: repository origin lists, build-environment script names,
//! and extraction of a commit hash from a `git describe` line.

use vstd::prelude::*;

use crate::text::{chars_of, spec_split, split_char, str_eq, string_from_chars, vec_contains_string};

verus! {

/// Errors of project configuration handling.
#[derive(Debug, Clone, Copy, PartialEq, Eq, Structural)]
pub enum ProjectError {
    /// A project names neither a hosted repository nor a plain URL.
    NoOrigin,
}

/// A character is an ASCII hexadecimal digit.
pub open spec fn spec_is_hex_digit(c: char) -> bool {
    ('0' <= c && c <= '9') || ('a' <= c && c <= 'f') || ('A' <= c && c <= 'F')
}

/// A character is plain ASCII.
pub open spec fn spec_is_ascii_char(c: char) -> bool {
    (c as u32) < 128
}

/// The hash a single `git describe` column carries, if any: the column must
/// be a `g` followed by at least seven ASCII characters whose first seven
/// are hexadecimal digits; the result is those seven digits.
pub open spec fn hash_of_col(col: Seq<char>) -> Option<Seq<char>> {
    if col.len() >= 8 && col[0] == 'g' && (forall|j: int|
        1 <= j < col.len() ==> spec_is_ascii_char(#[trigger] col[j])) && (forall|j: int|
        1 <= j < 8 ==> spec_is_hex_digit(#[trigger] col[j])) {
        Some(col.subrange(1, 8))
    } else {
        None
    }
}

/// The hash of the last column that carries one, searching from the end.
pub open spec fn extract_from(cols: Seq<Seq<char>>) -> Option<Seq<char>>
    decreases cols.len(),
{
    if cols.len() == 0 {
        None
    } else {
        match hash_of_col(cols.last()) {
            Some(h) => Some(h),
            None => extract_from(cols.drop_last()),
        }
    }
}

/// The commit hash denoted by a `git describe --all --long --dirty` line:
/// the rightmost `-`-separated column that names one.
pub open spec fn extract_hash_spec(s: Seq<char>) -> Option<Seq<char>> {
    extract_from(spec_split(s, '-'))
}

fn is_hex_digit(c: char) -> (r: bool)
    ensures
        r == spec_is_hex_digit(c),
{
    ('0' <= c && c <= '9') || ('a' <= c && c <= 'f') || ('A' <= c && c <= 'F')
}

fn is_ascii_char(c: char) -> (r: bool)
    ensures
        r == spec_is_ascii_char(c),
{
    (c as u32) < 128
}

/// Whether one column carries a hash, and that hash.
fn col_hash(col: &Vec<char>) -> (r: Option<String>)
    ensures
        match r {
            Some(h) => hash_of_col(col@) == Some(h@),
            None => hash_of_col(col@) is None,
        },
{
    let n: usize = col.len();
    if n < 8 || col[0] != 'g' {
        return None;
    }
    let mut j: usize = 1;
    while j < n
        invariant
            1 <= j <= n,
            n == col@.len(),
            forall|k: int| 1 <= k < j ==> spec_is_ascii_char(#[trigger] col@[k]),
        decreases n - j,
    {
        if !is_ascii_char(col[j]) {
            return None;
        }
        j = j + 1;
    }
    let mut j: usize = 1;
    while j < 8
        invariant
            1 <= j <= 8,
            n == col@.len(),
            n >= 8,
            forall|k: int| 1 <= k < j ==> spec_is_hex_digit(#[trigger] col@[k]),
        decreases 8 - j,
    {
        if !is_hex_digit(col[j]) {
            return None;
        }
        j = j + 1;
    }
    let mut out: Vec<char> = Vec::new();
    let mut j: usize = 1;
    while j < 8
        invariant
            1 <= j <= 8,
            n == col@.len(),
            n >= 8,
            out@ == col@.subrange(1, j as int),
        decreases 8 - j,
    {
        out.push(col[j]);
        proof {
            assert(out@ =~= col@.subrange(1, j as int + 1));
        }
        j = j + 1;
    }
    Some(string_from_chars(&out))
}

/// Extract a commit hash from a line produced by
/// `git describe --all --long --dirty`, looking from the end for a column
/// that appears to be the hash.
pub fn extract_hash(s: &str) -> (r: Option<String>)
    ensures
        match r {
            Some(h) => extract_hash_spec(s@) == Some(h@),
            None => extract_hash_spec(s@) is None,
        },
{
    let cs = chars_of(s);
    let cols = split_char(&cs, '-');
    let ghost cm = spec_split(s@, '-');
    let mut ci: usize = cols.len();
    proof {
        assert(cm.take(ci as int) =~= cm);
    }
    while ci > 0
        invariant
            ci <= cols@.len(),
            cols.deep_view() == cm,
            cm == spec_split(s@, '-'),
            extract_from(cm) == extract_from(cm.take(ci as int)),
        decreases ci,
    {
        ci = ci - 1;
        proof {
            assert(cm.take(ci as int + 1).drop_last() =~= cm.take(ci as int));
            assert(cm.take(ci as int + 1).last() == cm[ci as int]);
            assert(cols.deep_view()[ci as int] == cols@[ci as int].deep_view());
            assert(cols@[ci as int].deep_view() =~= cols@[ci as int]@);
        }
        match col_hash(&cols[ci]) {
            Some(h) => {
                return Some(h);
            },
            None => {
            },
        }
    }
    proof {
        assert(cm.take(0) =~= Seq::<Seq<char>>::empty());
    }
    None
}

/// The flavours of an operating-system build and the environment file each
/// one is driven by.
#[derive(Debug, Clone, Copy)]
pub enum BuildType {
    Quick,
    QuickDebug,
    Full,
    Release,
}

impl BuildType {
    /// The name of the build-environment script for this build flavour.
    pub fn script_name(&self) -> (r: &'static str)
        ensures
            match self {
                BuildType::Quick => r@ == "illumos-quick.sh"@,
                BuildType::QuickDebug => r@ == "illumos-quick-debug.sh"@,
                BuildType::Full => r@ == "illumos.sh"@,
                BuildType::Release => r@ == "illumos-release.sh"@,
            },
    {
        match self {
            BuildType::Quick => "illumos-quick.sh",
            BuildType::QuickDebug => "illumos-quick-debug.sh",
            BuildType::Full => "illumos.sh",
            BuildType::Release => "illumos-release.sh",
        }
    }
}

/// One source project of the build configuration: where to fetch it from
/// and how to treat it during setup.
#[derive(Debug)]
pub struct Project {
    pub github: Option<String>,
    pub url: Option<String>,
    pub auto_update: bool,
    pub rev: Option<String>,
    pub use_ssh: bool,
    pub site_sh: bool,
    pub cargo_build: bool,
    pub use_debug: bool,
    pub unless_env: Option<String>,
    pub fixup: Vec<Fixup>,
}

/// A branch fixup applied to a cloned project.
#[derive(Debug)]
pub struct Fixup {
    pub from_commit: String,
    pub to_branch: String,
}

/// The URL `Project::url` yields for a hosted repository name.
pub open spec fn github_url_spec(github: Seq<char>, ssh: bool) -> Seq<char> {
    if ssh {
        "git@github.com:"@ + github + ".git"@
    } else {
        "https://github.com/"@ + github + ".git"@
    }
}

impl Project {
    /// The URL this project is cloned from: its explicit URL when given,
    /// otherwise built from its hosted-repository name, over SSH when
    /// either the caller or the project demands it.
    pub fn url(&self, use_ssh: bool) -> (r: Result<String, ProjectError>)
        ensures
            match r {
                Ok(u) => match (self.url, self.github) {
                    (Some(x), _) => u@ == x@,
                    (None, Some(g)) => u@ == github_url_spec(g@, use_ssh || self.use_ssh),
                    (None, None) => false,
                },
                Err(e) => self.url is None && self.github is None && e == ProjectError::NoOrigin,
            },
    {
        match &self.url {
            Some(u) => Ok(u.clone()),
            None => match &self.github {
                Some(g) => {
                    let mut out = String::new();
                    if use_ssh || self.use_ssh {
                        out.append("git@github.com:");
                        out.append(g.as_str());
                        out.append(".git");
                        proof {
                            assert(out@ =~= github_url_spec(g@, true));
                        }
                    } else {
                        out.append("https://github.com/");
                        out.append(g.as_str());
                        out.append(".git");
                        proof {
                            assert(out@ =~= github_url_spec(g@, false));
                        }
                    }
                    Ok(out)
                },
                None => Err(ProjectError::NoOrigin),
            },
        }
    }

    /// Whether this project is skipped, judged from the value its
    /// skip-control environment variable currently has (`None` when the
    /// variable is absent or the project names none).
    pub fn skip(&self, env_value: Option<&str>) -> (r: bool)
        ensures
            r == match env_value {
                Some(v) => self.unless_env is Some && spec_skip_value(v@),
                None => false,
            },
    {
        if self.unless_env.is_none() {
            return false;
        }
        match env_value {
            Some(v) => skip_value(v),
            None => false,
        }
    }
}

/// An environment value that disables a project: `no`, `0` or `false`,
/// compared after ASCII lowercasing.
pub open spec fn spec_skip_value(v: Seq<char>) -> bool {
    let l = v.map_values(|c: char| spec_lower_char(c));
    l == "no"@ || l == "0"@ || l == "false"@
}

/// A character ASCII-lowercased.
pub open spec fn spec_lower_char(c: char) -> char {
    if 'A' <= c && c <= 'Z' {
        ((c as u32) + 32) as char
    } else {
        c
    }
}

fn lower_char(c: char) -> (r: char)
    ensures
        r == spec_lower_char(c),
{
    if 'A' <= c && c <= 'Z' {
        (((c as u32) + 32) as u8) as char
    } else {
        c
    }
}

fn skip_value(v: &str) -> (r: bool)
    ensures
        r == spec_skip_value(v@),
{
    let cs = chars_of(v);
    let n: usize = cs.len();
    let mut low: Vec<char> = Vec::new();
    let mut i: usize = 0;
    let ghost lm = v@.map_values(|c: char| spec_lower_char(c));
    proof {
        assert(low@ =~= lm.take(0));
    }
    while i < n
        invariant
            i <= n,
            n == cs@.len(),
            cs@ == v@,
            lm == v@.map_values(|c: char| spec_lower_char(c)),
            low@ == lm.take(i as int),
        decreases n - i,
    {
        low.push(lower_char(cs[i]));
        proof {
            assert(lm[i as int] == spec_lower_char(v@[i as int]));
            assert(low@ =~= lm.take(i as int + 1));
        }
        i = i + 1;
    }
    proof {
        assert(lm.take(n as int) =~= lm);
    }
    let ls = string_from_chars(&low);
    str_eq(ls.as_str(), "no") || str_eq(ls.as_str(), "0") || str_eq(ls.as_str(), "false")
}

/// One package publisher and the origin URLs configured for it, in order.
#[derive(Debug)]
pub struct Publisher {
    pub name: String,
    pub origins: Vec<String>,
}

/// Mathematical content of a publisher entry.
#[verifier::ext_equal]
pub struct PublisherModel {
    pub name: Seq<char>,
    pub origins: Seq<Seq<char>>,
}

impl View for Publisher {
    type V = PublisherModel;

    open spec fn view(&self) -> PublisherModel {
        PublisherModel { name: self.name@, origins: self.origins.deep_view() }
    }
}

impl DeepView for Publisher {
    type V = PublisherModel;

    open spec fn deep_view(&self) -> PublisherModel {
        self.view()
    }
}

/// The ordered list of publishers an image is configured with.
#[derive(Debug)]
pub struct Publishers {
    pub publishers: Vec<Publisher>,
}

impl Default for Publishers {
    /// An empty publisher list.
    fn default() -> (r: Publishers)
        ensures
            r.publishers@.len() == 0,
    {
        Publishers { publishers: Vec::new() }
    }
}

/// Whether some publisher of `ps` has the name `name`.
pub open spec fn spec_has_publisher(ps: Seq<PublisherModel>, name: Seq<char>) -> bool {
    exists|j: int| 0 <= j < ps.len() && (#[trigger] ps[j]).name == name
}

/// Index of the first publisher named `name`, or `ps.len()` if none is.
pub open spec fn first_publisher(ps: Seq<PublisherModel>, name: Seq<char>) -> int
    decreases ps.len(),
{
    if ps.len() == 0 {
        0
    } else if ps[0].name == name {
        0
    } else {
        1 + first_publisher(ps.skip(1), name)
    }
}

pub proof fn lemma_first_publisher(ps: Seq<PublisherModel>, name: Seq<char>)
    ensures
        0 <= first_publisher(ps, name) <= ps.len(),
        first_publisher(ps, name) < ps.len() ==> ps[first_publisher(ps, name)].name == name,
        forall|j: int| 0 <= j < first_publisher(ps, name) ==> (#[trigger] ps[j]).name != name,
        spec_has_publisher(ps, name) <==> first_publisher(ps, name) < ps.len(),
    decreases ps.len(),
{
    if ps.len() == 0 {
    } else if ps[0].name == name {
    } else {
        lemma_first_publisher(ps.skip(1), name);
        assert forall|j: int|
            0 <= j < first_publisher(ps, name) implies (#[trigger] ps[j]).name != name by {
            if j >= 1 {
                assert(ps[j] == ps.skip(1)[j - 1]);
            }
        }
        if spec_has_publisher(ps, name) {
            let w = choose|w: int| 0 <= w < ps.len() && (#[trigger] ps[w]).name == name;
            assert(ps.skip(1)[w - 1] == ps[w]);
            assert(spec_has_publisher(ps.skip(1), name));
        }
        if first_publisher(ps, name) < ps.len() {
            assert(ps[first_publisher(ps, name)].name == name);
        }
    }
}

/// The publisher list after appending `url` as an origin of `name`: the
/// publisher is created at the end if absent, and the URL is appended to
/// its origin list unless already present.
pub open spec fn append_origin_spec(
    ps: Seq<PublisherModel>,
    name: Seq<char>,
    url: Seq<char>,
) -> Seq<PublisherModel> {
    let ps1 = if spec_has_publisher(ps, name) {
        ps
    } else {
        ps.push(PublisherModel { name: name, origins: Seq::empty() })
    };
    let i = first_publisher(ps1, name);
    let p = ps1[i];
    if p.origins.contains(url) {
        ps1
    } else {
        ps1.update(i, PublisherModel { name: p.name, origins: p.origins.push(url) })
    }
}

impl Publishers {
    /// Whether a publisher of this name is already configured.
    pub fn has_publisher(&self, publisher: &str) -> (r: bool)
        ensures
            r == spec_has_publisher(self.publishers.deep_view(), publisher@),
    {
        let n: usize = self.publishers.len();
        let mut i: usize = 0;
        while i < n
            invariant
                i <= n,
                n == self.publishers@.len(),
                forall|j: int|
                    0 <= j < i ==> (#[trigger] self.publishers.deep_view()[j]).name
                        != publisher@,
            decreases n - i,
        {
            if str_eq(self.publishers[i].name.as_str(), publisher) {
                proof {
                    assert((self.publishers.deep_view()[i as int]).name == publisher@);
                }
                return true;
            }
            i = i + 1;
        }
        false
    }

    /// Append an origin URL to the named publisher, creating the publisher
    /// if it does not appear yet and keeping each URL at most once.
    pub fn append_origin(&mut self, publisher: &str, url: &str)
        ensures
            final(self).publishers.deep_view() == append_origin_spec(
                old(self).publishers.deep_view(),
                publisher@,
                url@,
            ),
    {
        let ghost ps0 = self.publishers.deep_view();
        if !self.has_publisher(publisher) {
            let ghost pv = self.publishers.deep_view();
            self.publishers.push(Publisher { name: publisher.to_owned(), origins: Vec::new() });
            proof {
                assert(self.publishers.deep_view() =~~= pv.push(
                    PublisherModel { name: publisher@, origins: Seq::empty() },
                ));
            }
        }
        let ghost ps1 = self.publishers.deep_view();
        proof {
            lemma_first_publisher(ps1, publisher@);
            if !spec_has_publisher(ps0, publisher@) {
                assert(ps1[ps0.len() as int].name == publisher@);
                assert(spec_has_publisher(ps1, publisher@));
            }
        }
        let n: usize = self.publishers.len();
        let mut i: usize = 0;
        while i < n
            invariant
                i <= n,
                n == self.publishers@.len(),
                ps1 == self.publishers.deep_view(),
                forall|j: int|
                    0 <= j < i ==> (#[trigger] self.publishers.deep_view()[j]).name
                        != publisher@,
            ensures
                i <= n,
                n == self.publishers@.len(),
                ps1 == self.publishers.deep_view(),
                forall|j: int|
                    0 <= j < i ==> (#[trigger] self.publishers.deep_view()[j]).name
                        != publisher@,
                i < n ==> (self.publishers.deep_view()[i as int]).name == publisher@,
            decreases n - i,
        {
            if str_eq(self.publishers[i].name.as_str(), publisher) {
                proof {
                    assert((self.publishers.deep_view()[i as int]).name == publisher@);
                }
                break;
            }
            i = i + 1;
        }
        proof {
            lemma_first_publisher(ps1, publisher@);
        }
        if i >= self.publishers.len() {
            proof {
                assert(!spec_has_publisher(ps1, publisher@));
                assert(false);
            }
            return;
        }
        proof {
            assert(ps1[i as int].name == publisher@);
            assert(first_publisher(ps1, publisher@) == i as int);
        }
        let mut p = self.publishers.remove(i);
        let dup = vec_contains_string(&p.origins, url);
        if !dup {
            let ghost og = p.origins.deep_view();
            p.origins.push(url.to_owned());
            proof {
                assert(p.origins.deep_view() =~~= og.push(url@));
            }
        }
        self.publishers.insert(i, p);
        proof {
            if dup {
                assert(self.publishers.deep_view() =~~= ps1);
                assert(append_origin_spec(ps0, publisher@, url@) == ps1);
            } else {
                assert(self.publishers.deep_view() =~~= ps1.update(
                    i as int,
                    PublisherModel {
                        name: ps1[i as int].name,
                        origins: ps1[i as int].origins.push(url@),
                    },
                ));
            }
        }
    }

    /// Render the configured publishers as `name={ url url }` groups
    /// separated by commas.
    pub fn display(&self) -> (r: String)
        ensures
            r@ == display_spec(self.publishers.deep_view()),
    {
        let mut s = String::new();
        let n: usize = self.publishers.len();
        let mut i: usize = 0;
        proof {
            assert(self.publishers.deep_view().take(0) =~= Seq::<PublisherModel>::empty());
        }
        while i < n
            invariant
                i <= n,
                n == self.publishers@.len(),
                s@ == display_spec(self.publishers.deep_view().take(i as int)),
            decreases n - i,
        {
            let ghost ps = self.publishers.deep_view();
            proof {
                assert(ps.take(i as int + 1).drop_last() =~= ps.take(i as int));
                assert(ps.take(i as int + 1).last() == ps[i as int]);
            }
            if i > 0 {
                s.append(", ");
            }
            let p = &self.publishers[i];
            s.append(p.name.as_str());
            s.append("={");
            let m: usize = p.origins.len();
            let mut oi: usize = 0;
            let ghost sbase = s@;
            proof {
                assert(p.origins.deep_view().take(0) =~= Seq::<Seq<char>>::empty());
                assert(sbase + origins_spec(p.origins.deep_view().take(0)) =~= sbase);
            }
            while oi < m
                invariant
                    oi <= m,
                    m == p.origins@.len(),
                    s@ == sbase + origins_spec(p.origins.deep_view().take(oi as int)),
                decreases m - oi,
            {
                let ghost og = p.origins.deep_view();
                proof {
                    assert(og.take(oi as int + 1).drop_last() =~= og.take(oi as int));
                    assert(og.take(oi as int + 1).last() == og[oi as int]);
                }
                s.append(" ");
                s.append(p.origins[oi].as_str());
                proof {
                    assert(og[oi as int] == p.origins@[oi as int]@);
                    assert(s@ =~= sbase + origins_spec(og.take(oi as int + 1)));
                }
                oi = oi + 1;
            }
            proof {
                assert(p.origins.deep_view().take(m as int) =~= p.origins.deep_view());
            }
            if p.origins.len() > 0 {
                s.append(" ");
            }
            s.append("}");
            proof {
                assert(p@ == self.publishers.deep_view()[i as int]);
                assert(s@ =~= display_spec(self.publishers.deep_view().take(i as int + 1)));
            }
            i = i + 1;
        }
        proof {
            assert(self.publishers.deep_view().take(n as int) =~= self.publishers.deep_view());
        }
        s
    }
}

/// The ` url ...` tail of one publisher's rendered origin group.
pub open spec fn origins_spec(os: Seq<Seq<char>>) -> Seq<char>
    decreases os.len(),
{
    if os.len() == 0 {
        Seq::empty()
    } else {
        origins_spec(os.drop_last()) + " "@ + os.last()
    }
}

/// One publisher rendered as `name={ url url }`, or `name={}` without
/// origins.
pub open spec fn display_pub_spec(p: PublisherModel) -> Seq<char> {
    p.name + "={"@ + origins_spec(p.origins) + (if p.origins.len() > 0 {
        " "@
    } else {
        Seq::<char>::empty()
    }) + "}"@
}

/// The full publisher list rendered with `, ` between publishers.
pub open spec fn display_spec(ps: Seq<PublisherModel>) -> Seq<char>
    decreases ps.len(),
{
    if ps.len() == 0 {
        Seq::empty()
    } else if ps.len() == 1 {
        display_pub_spec(ps.last())
    } else {
        display_spec(ps.drop_last()) + ", "@ + display_pub_spec(ps.last())
    }
}

} // verus!
