//! Deciding from glob patterns, those to take and those to leave out, which paths are checked.
use vstd::prelude::*;
use globset::{Glob, GlobSet, GlobSetBuilder};
use crate::checker::strings_view;
use crate::tokenizer::{chars_of, push_char};

verus! {

#[verifier::external_type_specification]
#[verifier::external_body]
pub struct ExGlob(Glob);

#[verifier::external_type_specification]
#[verifier::external_body]
pub struct ExGlobSet(GlobSet);

#[verifier::external_type_specification]
#[verifier::external_body]
pub struct ExGlobSetBuilder(GlobSetBuilder);

#[verifier::external_type_specification]
#[verifier::external_body]
pub struct ExGlobError(globset::Error);

/// Whether a pattern is accepted by the glob syntax.
pub uninterp spec fn glob_parses(p: Seq<char>) -> bool;

/// Whether the glob pattern `p` matches the path `path`.
pub uninterp spec fn glob_matches(p: Seq<char>, path: Seq<char>) -> bool;

/// The pattern text that a compiled glob was made from.
pub uninterp spec fn glob_text(g: Glob) -> Seq<char>;

/// The patterns added to a builder so far, in order.
pub uninterp spec fn builder_patterns(b: GlobSetBuilder) -> Seq<Seq<char>>;

/// The patterns that a set was built from, in order.
pub uninterp spec fn set_patterns(s: GlobSet) -> Seq<Seq<char>>;

/// Whether glob patterns that all parse can be combined into one set; this depends on
/// the patterns alone.
pub uninterp spec fn set_builds(ps: Seq<Seq<char>>) -> bool;

/// Relies on `globset::Glob::new`: it fails exactly on text that is not a glob, and
/// the glob it builds keeps its text.
#[verifier::external_body]
fn new_glob(p: &str) -> (r: Result<Glob, globset::Error>)
    ensures
        r is Ok <==> glob_parses(p@),
        r is Ok ==> glob_text(r->Ok_0) == p@,
{
    Glob::new(p)
}

/// Relies on `globset::GlobSetBuilder::new`: a builder holds no pattern at first.
#[verifier::external_body]
fn new_builder() -> (r: GlobSetBuilder)
    ensures
        builder_patterns(r) == Seq::<Seq<char>>::empty(),
{
    GlobSetBuilder::new()
}

/// Relies on `globset::GlobSetBuilder::add`: the glob is appended.
#[verifier::external_body]
fn add_glob(b: &mut GlobSetBuilder, g: Glob)
    ensures
        builder_patterns(*final(b)) == builder_patterns(*old(b)).push(glob_text(g)),
{
    b.add(g);
}

/// Relies on `globset::GlobSetBuilder::build`: a set that is built holds the
/// builder's patterns. Whether it is built depends on the patterns alone (it may fail
/// on a size limit of the matcher).
#[verifier::external_body]
fn build_set(b: &GlobSetBuilder) -> (r: Result<GlobSet, globset::Error>)
    ensures
        r is Ok <==> set_builds(builder_patterns(*b)),
        r is Ok ==> set_patterns(r->Ok_0) == builder_patterns(*b),
{
    b.build()
}

/// Relies on `globset::GlobSet::is_match`: true when any pattern of the set matches.
#[verifier::external_body]
fn set_is_match(s: &GlobSet, path: &str) -> (r: bool)
    ensures
        r == (exists|i: int| 0 <= i < set_patterns(*s).len() && glob_matches(set_patterns(*s)[i], path@)),
{
    s.is_match(path)
}

/// Whether some pattern of `ps` matches `path`.
pub open spec fn any_match(ps: Seq<Seq<char>>, path: Seq<char>) -> bool {
    exists|i: int| 0 <= i < ps.len() && glob_matches(#[trigger] ps[i], path)
}

/// The path with every backslash turned into a slash.
pub open spec fn normalize(path: Seq<char>) -> Seq<char> {
    path.map_values(|c: char| if c == '\\' { '/' } else { c })
}

/// The path without its leading `./` pieces.
pub open spec fn strip_dot_slash(p: Seq<char>) -> Seq<char>
    decreases p.len(),
{
    if p.len() >= 2 && p[0] == '.' && p[1] == '/' {
        strip_dot_slash(p.skip(2))
    } else {
        p
    }
}

/// Whether a path relative to the scan root is checked. The root itself (empty, or
/// `.`) always is; any other path must match an included pattern and no exclude
/// pattern, once separators are normalized and a leading `./` is dropped.
pub open spec fn path_passes(included: Seq<Seq<char>>, exclude: Seq<Seq<char>>, path: Seq<char>) -> bool {
    let n = normalize(path);
    if n.len() == 0 || n == seq!['.'] {
        true
    } else {
        let q = strip_dot_slash(n);
        any_match(included, q) && !any_match(exclude, q)
    }
}

/// Whether the first `upto` patterns of `ps` all parse.
pub open spec fn all_parse(ps: Seq<Seq<char>>, upto: int) -> bool {
    forall|k: int| 0 <= k < upto ==> glob_parses(#[trigger] ps[k])
}

/// What a failure to compile the two lists says of them. A pattern that is not a
/// glob is the first such one of its list, and every pattern taken before it parses;
/// a set fails only when its patterns all parse and cannot be combined.
pub open spec fn error_explained(included: Seq<Seq<char>>, exclude: Seq<Seq<char>>, e: ConfigError) -> bool {
    match e {
        ConfigError::InvalidInclude(p) => exists|k: int|
            0 <= k < included.len() && all_parse(included, k) && p@ == #[trigger] included[k]
                && !glob_parses(p@),
        ConfigError::InvalidExclude(p) => all_parse(included, included.len() as int) && exists|
            k: int,
        |
            0 <= k < exclude.len() && all_parse(exclude, k) && p@ == #[trigger] exclude[k]
                && !glob_parses(p@),
        ConfigError::IncludeSet => all_parse(included, included.len() as int) && !set_builds(
            included,
        ),
        ConfigError::ExcludeSet => all_parse(included, included.len() as int) && set_builds(
            included,
        ) && all_parse(exclude, exclude.len() as int) && !set_builds(exclude),
    }
}

/// Whether both lists compile: every pattern parses, and each list can be combined.
pub open spec fn lists_compile(included: Seq<Seq<char>>, exclude: Seq<Seq<char>>) -> bool {
    &&& all_parse(included, included.len() as int)
    &&& all_parse(exclude, exclude.len() as int)
    &&& set_builds(included)
    &&& set_builds(exclude)
}

/// Why a filter could not be made.
#[derive(Debug, Clone)]
pub enum ConfigError {
    /// An included pattern is not a glob.
    InvalidInclude(String),
    /// An exclude pattern is not a glob.
    InvalidExclude(String),
    /// The included patterns parse but could not be combined into one matcher.
    IncludeSet,
    /// The exclude patterns parse but could not be combined into one matcher.
    ExcludeSet,
}

/// The glob sets of the patterns to take and to leave out, compiled once per scan.
pub struct PathFilter {
    include_set: GlobSet,
    exclude_set: GlobSet,
}

/// Compiles the patterns; the first one that is not a glob is returned as the error.
fn compile_strict(patterns: &Vec<String>) -> (r: Result<GlobSet, usize>)
    ensures
        r is Ok ==> all_parse(strings_view(patterns@), patterns@.len() as int),
        r is Ok ==> set_patterns(r->Ok_0) == strings_view(patterns@),
        r is Ok ==> set_builds(strings_view(patterns@)),
        r is Err && r->Err_0 < patterns@.len() ==> all_parse(
            strings_view(patterns@),
            r->Err_0 as int,
        ) && !glob_parses(patterns@[r->Err_0 as int]@),
        r is Err && r->Err_0 >= patterns@.len() ==> all_parse(
            strings_view(patterns@),
            patterns@.len() as int,
        ),
        r is Err && r->Err_0 >= patterns@.len() ==> !set_builds(strings_view(patterns@)),
        all_parse(strings_view(patterns@), patterns@.len() as int) ==> (r is Ok || r->Err_0
            >= patterns@.len()),
        all_parse(strings_view(patterns@), patterns@.len() as int) && set_builds(
            strings_view(patterns@),
        ) ==> r is Ok,
{
    let ghost pv = strings_view(patterns@);
    let mut b = new_builder();
    let mut i: usize = 0;
    while i < patterns.len()
        invariant
            i <= patterns.len(),
            pv == strings_view(patterns@),
            all_parse(pv, i as int),
            builder_patterns(b) == pv.take(i as int),
        decreases patterns.len() - i,
    {
        match new_glob(patterns[i].as_str()) {
            Ok(g) => {
                add_glob(&mut b, g);
                assert(pv.take(i + 1) =~= pv.take(i as int).push(pv[i as int]));
            },
            Err(_) => {
                assert(pv[i as int] == patterns@[i as int]@);
                return Err(i);
            },
        }
        i = i + 1;
    }
    assert(pv.take(i as int) =~= pv);
    match build_set(&b) {
        Ok(s) => Ok(s),
        Err(_) => Err(patterns.len()),
    }
}

impl PathFilter {
    pub closed spec fn included(&self) -> Seq<Seq<char>> {
        set_patterns(self.include_set)
    }

    pub closed spec fn exclude(&self) -> Seq<Seq<char>> {
        set_patterns(self.exclude_set)
    }

    /// Compiles both pattern lists. Fails on the first included pattern that is not a
    /// glob, else on the first such exclude pattern; a set that cannot be built fails too.
    pub fn try_new(included: &Vec<String>, exclude: &Vec<String>) -> (r: Result<PathFilter, ConfigError>)
        ensures
            r matches Ok(f) ==> f.included() == strings_view(included@) && f.exclude()
                == strings_view(exclude@),
            r is Ok ==> all_parse(strings_view(included@), included@.len() as int) && all_parse(
                strings_view(exclude@),
                exclude@.len() as int,
            ),
            r is Ok <==> lists_compile(strings_view(included@), strings_view(exclude@)),
            r matches Err(e) ==> error_explained(strings_view(included@), strings_view(exclude@), e),
    {
        let include_set = match compile_strict(included) {
            Ok(s) => s,
            Err(k) => {
                if k < included.len() {
                    assert(included@[k as int]@ == strings_view(included@)[k as int]);
                    assert(all_parse(strings_view(included@), k as int));
                    return Err(ConfigError::InvalidInclude(included[k].clone()));
                }
                return Err(ConfigError::IncludeSet);
            },
        };
        let exclude_set = match compile_strict(exclude) {
            Ok(s) => s,
            Err(k) => {
                if k < exclude.len() {
                    assert(exclude@[k as int]@ == strings_view(exclude@)[k as int]);
                    assert(all_parse(strings_view(exclude@), k as int));
                    return Err(ConfigError::InvalidExclude(exclude[k].clone()));
                }
                return Err(ConfigError::ExcludeSet);
            },
        };
        Ok(PathFilter { include_set, exclude_set })
    }

    /// Compiles both pattern lists, as `try_new` does: a pattern that is not a glob
    /// is a configuration error naming it.
    pub fn new(included: &Vec<String>, exclude: &Vec<String>) -> (r: Result<PathFilter, ConfigError>)
        ensures
            r matches Ok(f) ==> f.included() == strings_view(included@) && f.exclude()
                == strings_view(exclude@),
            r is Ok <==> lists_compile(strings_view(included@), strings_view(exclude@)),
            r matches Err(e) ==> error_explained(strings_view(included@), strings_view(exclude@), e),
    {
        Self::try_new(included, exclude)
    }

    /// Whether the path, relative to the scan root, is to be checked.
    pub fn should_check(&self, path: &str) -> (r: bool)
        ensures
            r == path_passes(self.included(), self.exclude(), path@),
    {
        let cs = chars_of(path);
        let ghost n = normalize(path@);
        let mut norm: Vec<char> = Vec::new();
        let mut i: usize = 0;
        while i < cs.len()
            invariant
                cs@ == path@,
                n == normalize(path@),
                i <= cs.len(),
                norm@ == n.take(i as int),
            decreases cs.len() - i,
        {
            let c = cs[i];
            norm.push(if c == '\\' { '/' } else { c });
            i = i + 1;
            assert(norm@ =~= n.take(i as int));
        }
        assert(norm@ =~= n);
        if norm.len() == 0 || (norm.len() == 1 && norm[0] == '.') {
            assert(norm.len() == 1 ==> n =~= seq!['.']);
            return true;
        }
        assert(n != seq!['.']) by {
            if n == seq!['.'] {
                assert(n.len() == 1 && n[0] == '.');
            }
        }
        // Drop the leading "./" pieces.
        let mut s: usize = 0;
        while s < norm.len() && norm.len() - s >= 2 && norm[s] == '.' && norm[s + 1] == '/'
            invariant
                norm@ == n,
                s <= norm.len(),
                strip_dot_slash(n.skip(s as int)) == strip_dot_slash(n),
            decreases norm.len() - s,
        {
            assert(n.skip(s as int).skip(2) =~= n.skip(s + 2));
            s = s + 2;
        }
        assert(strip_dot_slash(n.skip(s as int)) == n.skip(s as int));
        let mut rest = String::new();
        let mut k: usize = s;
        while k < norm.len()
            invariant
                norm@ == n,
                s <= k <= norm.len(),
                rest@ == n.subrange(s as int, k as int),
            decreases norm.len() - k,
        {
            push_char(&mut rest, norm[k]);
            k = k + 1;
            assert(rest@ =~= n.subrange(s as int, k as int));
        }
        assert(rest@ =~= strip_dot_slash(n));
        if !set_is_match(&self.include_set, rest.as_str()) {
            return false;
        }
        if set_is_match(&self.exclude_set, rest.as_str()) {
            return false;
        }
        true
    }
}

} // verus!
