//! Prompt libraries: the data model and the identifier normalization
//! rule used when a library identifier is derived from a directory name.

use vstd::prelude::*;
use vstd::string::*;
use crate::text::{
    char_is_alphanumeric, chars_to_string, is_alphanum, lemma_trim_front_skip,
    lemma_trim_back_take, lemma_trim_front_suffix, lemma_trim_back_prefix,
    lemma_trim_if_idempotent, lower_of, str_eq, str_to_chars, to_lowercase, trim_if,
    underscore_p,
};

verus! {

/// An argument declared for a prompt.
pub struct PromptArgument {
    /// Name used in templates.
    pub name: String,
    /// Human-readable description, if any.
    pub description: Option<String>,
    /// Whether a caller must supply this argument.
    pub required: bool,
}

/// The model of a declared argument: name, optional description,
/// required flag.
pub type ArgModel = (Seq<char>, Option<Seq<char>>, bool);

impl View for PromptArgument {
    type V = ArgModel;

    open spec fn view(&self) -> ArgModel {
        (self.name@, self.description.deep_view(), self.required)
    }
}

/// The models of a sequence of declared arguments, in order.
pub open spec fn args_view(s: Seq<PromptArgument>) -> Seq<ArgModel>
    decreases s.len(),
{
    if s.len() == 0 {
        Seq::empty()
    } else {
        args_view(s.drop_last()).push(s.last()@)
    }
}

/// `args_view` maps each argument to its model, position by position.
pub proof fn lemma_args_view_index(s: Seq<PromptArgument>)
    ensures
        args_view(s).len() == s.len(),
        forall|i: int| 0 <= i < s.len() ==> args_view(s)[i] == s[i]@,
    decreases s.len(),
{
    if s.len() > 0 {
        lemma_args_view_index(s.drop_last());
        assert(forall|i: int| 0 <= i < s.len() - 1 ==> s.drop_last()[i] == #[trigger] s[i]);
    }
}

/// A prompt declared in a library's configuration: a description and an
/// ordered list of arguments.
pub struct PromptDefinition {
    pub description: String,
    pub arguments: Vec<PromptArgument>,
}

impl View for PromptDefinition {
    type V = (Seq<char>, Seq<ArgModel>);

    open spec fn view(&self) -> (Seq<char>, Seq<ArgModel>) {
        (self.description@, args_view(self.arguments@))
    }
}

/// The models of declared prompts: name, description, arguments.
pub open spec fn prompts_view(s: Seq<(String, PromptDefinition)>) -> Seq<
    (Seq<char>, Seq<char>, Seq<ArgModel>),
>
    decreases s.len(),
{
    if s.len() == 0 {
        Seq::empty()
    } else {
        prompts_view(s.drop_last()).push(
            (s.last().0@, s.last().1.description@, args_view(s.last().1.arguments@)),
        )
    }
}

/// `prompts_view` maps each entry to its model, position by position.
pub proof fn lemma_prompts_view_index(s: Seq<(String, PromptDefinition)>)
    ensures
        prompts_view(s).len() == s.len(),
        forall|i: int|
            0 <= i < s.len() ==> prompts_view(s)[i] == (
                s[i].0@,
                s[i].1.description@,
                args_view(s[i].1.arguments@),
            ),
    decreases s.len(),
{
    if s.len() > 0 {
        lemma_prompts_view_index(s.drop_last());
        assert(forall|i: int| 0 <= i < s.len() - 1 ==> s.drop_last()[i] == #[trigger] s[i]);
    }
}

/// A library's configuration: an ordered mapping from prompt name to
/// definition. Prompt names are unique; see [`LibraryConfig::wf`].
pub struct LibraryConfig {
    pub prompts: Vec<(String, PromptDefinition)>,
}

impl View for LibraryConfig {
    type V = Seq<(Seq<char>, Seq<char>, Seq<ArgModel>)>;

    open spec fn view(&self) -> Seq<(Seq<char>, Seq<char>, Seq<ArgModel>)> {
        prompts_view(self.prompts@)
    }
}

impl LibraryConfig {
    /// Prompt names are pairwise distinct.
    pub open spec fn wf(&self) -> bool {
        forall|i: int, j: int|
            0 <= i < j < self.prompts@.len() ==> self.prompts@[i].0@ != self.prompts@[j].0@
    }

    /// Whether a prompt named `name` is declared.
    pub open spec fn spec_contains(&self, name: Seq<char>) -> bool {
        exists|i: int| 0 <= i < self.prompts@.len() && self.prompts@[i].0@ == name
    }

    /// Number of declared prompts.
    pub fn len(&self) -> (n: usize)
        ensures
            n == self.prompts@.len(),
    {
        self.prompts.len()
    }

    /// Whether a prompt named `name` is declared.
    pub fn contains_key(&self, name: &str) -> (r: bool)
        ensures
            r == self.spec_contains(name@),
    {
        let mut i: usize = 0;
        while i < self.prompts.len()
            invariant
                i <= self.prompts@.len(),
                forall|j: int| 0 <= j < i ==> self.prompts@[j].0@ != name@,
            decreases self.prompts@.len() - i,
    {
            if str_eq(self.prompts[i].0.as_str(), name) {
                return true;
            }
            i = i + 1;
        }
        false
    }

    /// The definition of the prompt named `name`, if any.
    pub fn get(&self, name: &str) -> (r: Option<&PromptDefinition>)
        ensures
            match r {
                Some(d) => exists|i: int|
                    0 <= i < self.prompts@.len() && self.prompts@[i].0@ == name@ && *d
                        == self.prompts@[i].1,
                None => !self.spec_contains(name@),
            },
    {
        let mut i: usize = 0;
        while i < self.prompts.len()
            invariant
                i <= self.prompts@.len(),
                forall|j: int| 0 <= j < i ==> self.prompts@[j].0@ != name@,
            decreases self.prompts@.len() - i,
        {
            if str_eq(self.prompts[i].0.as_str(), name) {
                return Some(&self.prompts[i].1);
            }
            i = i + 1;
        }
        None
    }
}

/// An element-wise copy of declared arguments.
pub fn clone_args(args: &Vec<PromptArgument>) -> (r: Vec<PromptArgument>)
    ensures
        r@.len() == args@.len(),
        forall|k: int| 0 <= k < args@.len() ==> r@[k]@ == args@[k]@,
        args_view(r@) == args_view(args@),
{
    let mut r: Vec<PromptArgument> = Vec::new();
    let mut i: usize = 0;
    while i < args.len()
        invariant
            i <= args@.len(),
            r@.len() == i,
            forall|k: int| 0 <= k < i ==> r@[k]@ == args@[k]@,
        decreases args@.len() - i,
    {
        let a = &args[i];
        r.push(
            PromptArgument {
                name: a.name.clone(),
                description: match &a.description {
                    Some(d) => Some(d.clone()),
                    None => None,
                },
                required: a.required,
            },
        );
        i = i + 1;
    }
    proof {
        lemma_args_view_index(r@);
        lemma_args_view_index(args@);
        assert(args_view(r@) =~= args_view(args@));
    }
    r
}

/// A copy of a prompt definition.
pub fn clone_definition(d: &PromptDefinition) -> (r: PromptDefinition)
    ensures
        r@ == d@,
{
    PromptDefinition { description: d.description.clone(), arguments: clone_args(&d.arguments) }
}

/// A prompt library: a normalized identifier, the directory it was
/// found in (as text), and its configuration.
pub struct PromptLibrary {
    pub name: String,
    pub path: String,
    pub config: LibraryConfig,
}

/// A character survives normalization unchanged: it is alphanumeric or
/// an underscore.
pub open spec fn keeps(c: char) -> bool {
    is_alphanum(c) || c == '_'
}

/// The per-character step of normalization: keep word characters, turn
/// everything else into an underscore.
pub open spec fn map_char(c: char) -> char {
    if keeps(c) {
        c
    } else {
        '_'
    }
}

/// `s` with every character that is neither alphanumeric nor `_`
/// replaced by `_`.
pub open spec fn mapped_chars(s: Seq<char>) -> Seq<char> {
    s.map_values(|c: char| map_char(c))
}

/// The normalized form of a library name: lowercase it, replace every
/// character that is neither alphanumeric nor `_` by `_`, then trim
/// leading and trailing underscores.
pub open spec fn normalize_spec(s: Seq<char>) -> Seq<char> {
    trim_if(mapped_chars(lower_of(s)), underscore_p())
}

/// Normalize a library name derived from a directory name.
pub fn normalize_library_name(name: &str) -> (r: String)
    ensures
        r@ == normalize_spec(name@),
{
    let lowered = to_lowercase(name);
    let chars = str_to_chars(lowered.as_str());
    let ghost low: Seq<char> = lower_of(name@);
    let mut mapped: Vec<char> = Vec::new();
    let mut i: usize = 0;
    while i < chars.len()
        invariant
            chars@ == low,
            i <= chars@.len(),
            mapped@ == mapped_chars(low.subrange(0, i as int)),
        decreases chars@.len() - i,
    {
        let c = chars[i];
        if c == '_' || char_is_alphanumeric(c) {
            mapped.push(c);
        } else {
            mapped.push('_');
        }
        i = i + 1;
        assert(mapped@ =~= mapped_chars(low.subrange(0, i as int)));
    }
    assert(low.subrange(0, low.len() as int) =~= low);
    let trimmed = trim_underscores(mapped);
    chars_to_string(&trimmed)
}

/// Remove leading and trailing underscores.
fn trim_underscores(v: Vec<char>) -> (r: Vec<char>)
    ensures
        r@ == trim_if(v@, underscore_p()),
{
    let n = v.len();
    let mut start: usize = 0;
    while start < n && v[start] == '_'
        invariant
            n == v@.len(),
            start <= n,
            forall|j: int| 0 <= j < start ==> v@[j] == '_',
        decreases n - start,
    {
        start = start + 1;
    }
    proof {
        assert(forall|j: int| 0 <= j < start ==> #[trigger] underscore_p()(v@[j]));
        lemma_trim_front_skip(v@, underscore_p(), start as int);
    }
    let mut end: usize = n;
    while end > start && v[end - 1] == '_'
        invariant
            n == v@.len(),
            start <= end <= n,
            forall|j: int| end <= j < n ==> v@[j] == '_',
        decreases end,
    {
        end = end - 1;
    }
    let ghost tf = v@.skip(start as int);
    proof {
        assert(forall|j: int| end - start <= j < tf.len() ==> #[trigger] underscore_p()(tf[j]));
        lemma_trim_back_take(tf, underscore_p(), end - start);
    }
    let mut r: Vec<char> = Vec::new();
    let mut i: usize = start;
    while i < end
        invariant
            start <= i <= end <= n,
            n == v@.len(),
            r@ == v@.subrange(start as int, i as int),
        decreases end - i,
    {
        r.push(v[i]);
        i = i + 1;
        assert(r@ =~= v@.subrange(start as int, i as int));
    }
    proof {
        assert(tf.take(end - start) =~= v@.subrange(start as int, end as int));
    }
    r
}

/// Every character of a trimmed all-word-character sequence is a word
/// character.
proof fn lemma_trim_underscores_keeps(s: Seq<char>)
    requires
        forall|j: int| 0 <= j < s.len() ==> keeps(#[trigger] s[j]),
    ensures
        forall|j: int|
            0 <= j < trim_if(s, underscore_p()).len() ==> keeps(
                #[trigger] trim_if(s, underscore_p())[j],
            ),
{
    let f = trim_front_if_alias(s);
    lemma_trim_front_suffix(s, underscore_p());
    lemma_trim_back_prefix(f, underscore_p());
    let t = trim_if(s, underscore_p());
    assert forall|j: int| 0 <= j < t.len() implies keeps(#[trigger] t[j]) by {
        assert(t[j] == f[j]);
        assert(f[j] == s[j + (s.len() - f.len())]);
    }
}

/// Names the front-trimmed sequence; keeps the proof above readable.
spec fn trim_front_if_alias(s: Seq<char>) -> Seq<char> {
    crate::text::trim_front_if(s, underscore_p())
}

/// What an on-disk scan found for one candidate library directory: the
/// directory's name, its location as text, and the text of its
/// configuration file.
pub struct ScannedDir {
    pub name: String,
    pub path: String,
    pub config_text: String,
}

impl View for ScannedDir {
    type V = (Seq<char>, Seq<char>, Seq<char>);

    open spec fn view(&self) -> (Seq<char>, Seq<char>, Seq<char>) {
        (self.name@, self.path@, self.config_text@)
    }
}

/// The model of a discovered library: identifier, location,
/// configuration.
pub type LibModel = (Seq<char>, Seq<char>, Seq<(Seq<char>, Seq<char>, Seq<ArgModel>)>);

/// The models of discovered libraries, in order.
pub open spec fn libs_view(s: Seq<PromptLibrary>) -> Seq<LibModel>
    decreases s.len(),
{
    if s.len() == 0 {
        Seq::empty()
    } else {
        libs_view(s.drop_last()).push((s.last().name@, s.last().path@, s.last().config@))
    }
}

/// `libs_view` maps each library to its model, position by position.
pub proof fn lemma_libs_view_index(s: Seq<PromptLibrary>)
    ensures
        libs_view(s).len() == s.len(),
        forall|i: int|
            0 <= i < s.len() ==> libs_view(s)[i] == (s[i].name@, s[i].path@, s[i].config@),
    decreases s.len(),
{
    if s.len() > 0 {
        lemma_libs_view_index(s.drop_last());
        assert(forall|i: int| 0 <= i < s.len() - 1 ==> s.drop_last()[i] == #[trigger] s[i]);
    }
}

/// Whether a library of that identifier was already discovered.
pub open spec fn libs_contain(acc: Seq<LibModel>, n: Seq<char>) -> bool {
    exists|i: int| 0 <= i < acc.len() && acc[i].0 == n
}

/// The discovery fold: each directory whose configuration parses adds a
/// library under its normalized identifier, unless that identifier was
/// already taken — the first discovered wins. A malformed configuration
/// skips that directory alone.
pub open spec fn disc_run(ds: Seq<(Seq<char>, Seq<char>, Seq<char>)>, acc: Seq<LibModel>) -> Seq<
    LibModel,
>
    decreases ds.len(),
{
    if ds.len() == 0 {
        acc
    } else {
        let d = ds[0];
        let acc2 = match crate::config::parse_config_spec(d.2) {
            None => acc,
            Some(c) => {
                let nm = normalize_spec(d.0);
                if libs_contain(acc, nm) {
                    acc
                } else {
                    acc.push((nm, d.1, c))
                }
            },
        };
        disc_run(ds.drop_first(), acc2)
    }
}

/// What discovery returns for the scanned directories.
pub open spec fn discover_spec(ds: Seq<(Seq<char>, Seq<char>, Seq<char>)>) -> Seq<LibModel> {
    disc_run(ds, Seq::empty())
}

/// Whether a library of that identifier was already built.
fn libs_contain_exec(out: &Vec<PromptLibrary>, n: &str) -> (r: bool)
    ensures
        r == libs_contain(libs_view(out@), n@),
{
    proof {
        lemma_libs_view_index(out@);
    }
    let mut i: usize = 0;
    while i < out.len()
        invariant
            i <= out@.len(),
            forall|j: int| 0 <= j < i ==> out@[j].name@ != n@,
        decreases out@.len() - i,
    {
        if str_eq(out[i].name.as_str(), n) {
            proof {
                lemma_libs_view_index(out@);
                assert(libs_view(out@)[i as int].0 == n@);
            }
            return true;
        }
        i = i + 1;
    }
    proof {
        lemma_libs_view_index(out@);
        if libs_contain(libs_view(out@), n@) {
            let j = choose|j: int|
                0 <= j < libs_view(out@).len() && libs_view(out@)[j].0 == n@;
            assert(out@[j].name@ == n@);
        }
    }
    false
}

/// Discover the prompt libraries among scanned directories. A
/// directory whose configuration does not parse is skipped; the others
/// become libraries named by their normalized directory name, first
/// discovered winning a contested identifier. Never fails: no readable
/// configuration at all simply yields no libraries.
pub fn discover_libraries(dirs: &Vec<ScannedDir>) -> (r: Vec<PromptLibrary>)
    ensures
        libs_view(r@) == discover_spec(dirs@.map_values(|d: ScannedDir| d@)),
        forall|i: int| 0 <= i < r@.len() ==> (#[trigger] r@[i].config).wf(),
{
    let ghost dv = dirs@.map_values(|d: ScannedDir| d@);
    let mut out: Vec<PromptLibrary> = Vec::new();
    let mut i: usize = 0;
    proof {
        assert(dv.skip(0) =~= dv);
        assert(libs_view(out@) =~= Seq::<LibModel>::empty());
    }
    while i < dirs.len()
        invariant
            i <= dirs@.len(),
            dv == dirs@.map_values(|d: ScannedDir| d@),
            dv.len() == dirs@.len(),
            discover_spec(dv) == disc_run(dv.skip(i as int), libs_view(out@)),
            forall|j: int| 0 <= j < out@.len() ==> (#[trigger] out@[j].config).wf(),
        decreases dirs@.len() - i,
    {
        let ghost seg = dv.skip(i as int);
        proof {
            assert(dirs@.map_values(|d: ScannedDir| d@)[i as int] == dirs@[i as int]@);
            assert(seg[0] == dv[i as int]);
            assert(seg.drop_first() =~= dv.skip(i as int + 1));
        }
        let d = &dirs[i];
        match crate::config::parse_library_config(d.config_text.as_str()) {
            None => {},
            Some(config) => {
                let nm = normalize_library_name(d.name.as_str());
                if !libs_contain_exec(&out, nm.as_str()) {
                    let ghost out0 = out@;
                    out.push(
                        PromptLibrary { name: nm, path: d.path.clone(), config },
                    );
                    proof {
                        assert(out@.drop_last() =~= out0);
                        assert(forall|j: int|
                            0 <= j < out0.len() ==> out@[j] == #[trigger] out0[j]);
                    }
                }
            },
        }
        i = i + 1;
    }
    proof {
        assert(dv.skip(dv.len() as int) =~= Seq::<(Seq<char>, Seq<char>, Seq<char>)>::empty());
    }
    out
}

/// The shape of every normalized identifier: only alphanumerics and
/// underscores remain, and neither end carries an underscore.
pub proof fn lemma_normalize_shape(s: Seq<char>)
    ensures
        forall|j: int|
            0 <= j < normalize_spec(s).len() ==> keeps(#[trigger] normalize_spec(s)[j]),
        normalize_spec(s).len() > 0 ==> normalize_spec(s)[0] != '_' && normalize_spec(s).last()
            != '_',
{
    let m = mapped_chars(lower_of(s));
    assert(forall|j: int| 0 <= j < m.len() ==> keeps(#[trigger] m[j]));
    lemma_trim_underscores_keeps(m);
    let f = crate::text::trim_front_if(m, underscore_p());
    lemma_trim_front_suffix(m, underscore_p());
    lemma_trim_back_prefix(f, underscore_p());
    let t = normalize_spec(s);
    if t.len() > 0 {
        assert(t[0] == f[0]);
    }
}

/// Normalization is idempotent wherever lowercasing leaves its result
/// unchanged. The output consists of word characters only and carries
/// no leading or trailing underscore, so a second pass can alter it
/// only through the lowercasing step; on any input whose normalized
/// form is already lowercase (every ASCII name, in particular) the
/// function is a fixed point.
pub proof fn lemma_normalize_idempotent(s: Seq<char>)
    ensures
        lower_of(normalize_spec(s)) == normalize_spec(s) ==> normalize_spec(normalize_spec(s))
            == normalize_spec(s),
{
    let m = mapped_chars(lower_of(s));
    let t = normalize_spec(s);
    assert(forall|j: int| 0 <= j < m.len() ==> keeps(#[trigger] m[j]));
    lemma_trim_underscores_keeps(m);
    if lower_of(t) == t {
        assert(mapped_chars(t) =~= t);
        lemma_trim_if_idempotent(m, underscore_p());
    }
}

} // verus!
