//! The prompt registry: a concurrently readable, metadata-only cache
//! over a directory of content files.
//!
//! The cache holds entries without bodies, so its footprint does not
//! grow with template size; bodies are re-read from disk by the caller
//! on every fetch, and the entry only names the path to read. A reload
//! builds the whole new entry set off to the side and publishes it in
//! one write-locked swap, so a concurrent reader observes either the
//! old set or the new one, never a mixture; the lock is vstd's verified
//! reader-writer lock, and the cache invariant (pairwise distinct entry
//! names) holds of every value it ever stores.

use vstd::prelude::*;
use vstd::string::*;
use vstd::rwlock::{RwLock, RwLockPredicate};
use crate::parser::parse_file_spec;
use crate::renderer::{first_missing, render_checked, render_spec};
use crate::text::str_eq;
use crate::types::{clone_info, EntryModel, PromptError, PromptFile, PromptInfo};
use crate::value::PromptArgs;

verus! {

/// One scanned content file, as the caller read it from disk: the
/// prompt name (the file's stem), the file's path as text, its whole
/// content, and its last-modified stamp.
pub struct SourceFile {
    pub name: String,
    pub path: String,
    pub content: String,
    pub modified: u64,
}

impl View for SourceFile {
    type V = (Seq<char>, Seq<char>, Seq<char>, u64);

    open spec fn view(&self) -> (Seq<char>, Seq<char>, Seq<char>, u64) {
        (self.name@, self.path@, self.content@, self.modified)
    }
}

/// The models of cached entries, in order.
pub open spec fn infos_view(s: Seq<PromptInfo>) -> Seq<EntryModel>
    decreases s.len(),
{
    if s.len() == 0 {
        Seq::empty()
    } else {
        infos_view(s.drop_last()).push(s.last()@)
    }
}

/// `infos_view` maps each entry to its model, position by position.
pub proof fn lemma_infos_view_index(s: Seq<PromptInfo>)
    ensures
        infos_view(s).len() == s.len(),
        forall|i: int| 0 <= i < s.len() ==> infos_view(s)[i] == s[i]@,
    decreases s.len(),
{
    if s.len() > 0 {
        lemma_infos_view_index(s.drop_last());
        assert(forall|i: int| 0 <= i < s.len() - 1 ==> s.drop_last()[i] == #[trigger] s[i]);
    }
}

/// Whether an entry of that name is already present.
pub open spec fn entries_contain(acc: Seq<EntryModel>, n: Seq<char>) -> bool {
    exists|i: int| 0 <= i < acc.len() && acc[i].0 == n
}

/// The reload fold: each file whose frontmatter parses adds a
/// metadata-only entry and its name to the loaded list, unless an entry
/// of that name exists already — the first wins. The parsed body is
/// discarded here: the cache never holds content. A malformed file
/// skips that file alone.
pub open spec fn load_run(
    fs: Seq<(Seq<char>, Seq<char>, Seq<char>, u64)>,
    entries: Seq<EntryModel>,
    loaded: Seq<Seq<char>>,
) -> (Seq<EntryModel>, Seq<Seq<char>>)
    decreases fs.len(),
{
    if fs.len() == 0 {
        (entries, loaded)
    } else {
        let f = fs[0];
        match parse_file_spec(f.2) {
            None => load_run(fs.drop_first(), entries, loaded),
            Some(pr) => if entries_contain(entries, f.0) {
                load_run(fs.drop_first(), entries, loaded)
            } else {
                load_run(fs.drop_first(), entries.push((f.0, f.1, pr.0, f.3)), loaded.push(f.0))
            },
        }
    }
}

/// What a reload builds from the scanned files.
pub open spec fn load_spec(fs: Seq<(Seq<char>, Seq<char>, Seq<char>, u64)>) -> (
    Seq<EntryModel>,
    Seq<Seq<char>>,
) {
    load_run(fs, Seq::empty(), Seq::empty())
}

/// The value behind the registry's lock: the cached entries.
pub struct RegistryCache {
    pub entries: Vec<PromptInfo>,
}

impl RegistryCache {
    /// Entry names are pairwise distinct.
    pub open spec fn wf(&self) -> bool {
        forall|i: int, j: int|
            0 <= i < j < self.entries@.len() ==> self.entries@[i].name@ != self.entries@[j].name@
    }

    /// Whether an entry named `name` is cached.
    pub open spec fn spec_contains(&self, name: Seq<char>) -> bool {
        exists|i: int| 0 <= i < self.entries@.len() && self.entries@[i].name@ == name
    }

    /// The entry named `name`, if any.
    pub fn get(&self, name: &str) -> (r: Option<&PromptInfo>)
        ensures
            match r {
                Some(e) => self.spec_contains(name@) && e.name@ == name@ && exists|i: int|
                    0 <= i < self.entries@.len() && *e == self.entries@[i],
                None => !self.spec_contains(name@),
            },
    {
        let mut i: usize = 0;
        while i < self.entries.len()
            invariant
                i <= self.entries@.len(),
                forall|j: int| 0 <= j < i ==> self.entries@[j].name@ != name@,
            decreases self.entries@.len() - i,
        {
            if str_eq(self.entries[i].name.as_str(), name) {
                return Some(&self.entries[i]);
            }
            i = i + 1;
        }
        None
    }
}

/// Whether an entry of that name is already present.
fn entries_contain_exec(entries: &Vec<PromptInfo>, n: &str) -> (r: bool)
    ensures
        r == entries_contain(infos_view(entries@), n@),
{
    proof {
        lemma_infos_view_index(entries@);
    }
    let mut i: usize = 0;
    while i < entries.len()
        invariant
            i <= entries@.len(),
            forall|j: int| 0 <= j < i ==> entries@[j].name@ != n@,
        decreases entries@.len() - i,
    {
        if str_eq(entries[i].name.as_str(), n) {
            proof {
                lemma_infos_view_index(entries@);
                assert(infos_view(entries@)[i as int].0 == n@);
            }
            return true;
        }
        i = i + 1;
    }
    proof {
        lemma_infos_view_index(entries@);
        if entries_contain(infos_view(entries@), n@) {
            let j = choose|j: int|
                0 <= j < infos_view(entries@).len() && infos_view(entries@)[j].0 == n@;
            assert(entries@[j].name@ == n@);
        }
    }
    false
}

/// Build a brand-new cache from the scanned files, entirely off to the
/// side: metadata only, first entry of a name winning, malformed files
/// skipped. Returns the cache and the names loaded, in scan order.
fn build_cache(files: &Vec<SourceFile>) -> (r: (RegistryCache, Vec<String>))
    ensures
        ({
            let outcome = load_spec(files@.map_values(|f: SourceFile| f@));
            &&& infos_view(r.0.entries@) == outcome.0
            &&& r.1@.map_values(|s: String| s@) == outcome.1
            &&& r.0.wf()
        }),
{
    let ghost fv = files@.map_values(|f: SourceFile| f@);
    let mut entries: Vec<PromptInfo> = Vec::new();
    let mut loaded: Vec<String> = Vec::new();
    let mut i: usize = 0;
    proof {
        assert(fv.skip(0) =~= fv);
        assert(infos_view(entries@) =~= Seq::<EntryModel>::empty());
        assert(loaded@.map_values(|s: String| s@) =~= Seq::<Seq<char>>::empty());
    }
    while i < files.len()
        invariant
            i <= files@.len(),
            fv == files@.map_values(|f: SourceFile| f@),
            fv.len() == files@.len(),
            load_spec(fv) == load_run(
                fv.skip(i as int),
                infos_view(entries@),
                loaded@.map_values(|s: String| s@),
            ),
            forall|a: int, b: int|
                0 <= a < b < entries@.len() ==> entries@[a].name@ != entries@[b].name@,
        decreases files@.len() - i,
    {
        let ghost seg = fv.skip(i as int);
        proof {
            assert(files@.map_values(|f: SourceFile| f@)[i as int] == files@[i as int]@);
            assert(seg[0] == fv[i as int]);
            assert(seg.drop_first() =~= fv.skip(i as int + 1));
        }
        let f = &files[i];
        match crate::parser::parse_content(&crate::text::str_to_chars(f.content.as_str())) {
            None => {},
            Some((metadata, _body)) => {
                if !entries_contain_exec(&entries, f.name.as_str()) {
                    let ghost es0 = entries@;
                    let ghost ls0 = loaded@;
                    entries.push(
                        PromptInfo {
                            name: f.name.clone(),
                            path: f.path.clone(),
                            metadata,
                            modified: f.modified,
                        },
                    );
                    loaded.push(f.name.clone());
                    proof {
                        assert(entries@.drop_last() =~= es0);
                        assert(loaded@.drop_last() =~= ls0);
                        let g = |s: String| s@;
                        assert forall|k: int| 0 <= k < loaded@.len() implies #[trigger] loaded@
                            .map_values(g)[k] == ls0.map_values(g).push(f.name@)[k] by {
                            if k < ls0.len() {
                                assert(loaded@[k] == ls0[k]);
                            }
                        }
                        assert(loaded@.map_values(g) =~= ls0.map_values(g).push(f.name@));
                        assert forall|a: int, b: int|
                            0 <= a < b < entries@.len() implies entries@[a].name@ != entries@[b].name@ by {
                            if b < es0.len() {
                                assert(entries@[a] == es0[a]);
                                assert(entries@[b] == es0[b]);
                            } else {
                                lemma_infos_view_index(es0);
                                assert(entries@[a] == es0[a]);
                                assert(infos_view(es0)[a].0 == es0[a].name@);
                            }
                        }
                    }
                }
            },
        }
        i = i + 1;
    }
    proof {
        assert(fv.skip(fv.len() as int) =~= Seq::<(Seq<char>, Seq<char>, Seq<char>, u64)>::empty());
    }
    (RegistryCache { entries }, loaded)
}

/// The lock invariant: every cache value ever stored is well-formed.
struct CachePred {}

impl RwLockPredicate<RegistryCache> for CachePred {
    open spec fn inv(self, v: RegistryCache) -> bool {
        v.wf()
    }
}

/// The registry. Its cache is owned exclusively and never handed out by
/// reference: `list` returns an independent copy of the entries.
pub struct PromptRegistry {
    prompts: RwLock<RegistryCache, CachePred>,
    /// The directory the caller scans for content files, as text.
    pub directory: String,
}

impl PromptRegistry {
    /// The directory this registry was made for, as text.
    pub closed spec fn dir(&self) -> Seq<char> {
        self.directory@
    }

    /// A registry for the given directory, with an empty cache.
    pub fn new(directory: String) -> (r: PromptRegistry)
        ensures
            r.dir() == directory@,
    {
        let cache = RegistryCache { entries: Vec::new() };
        PromptRegistry { prompts: RwLock::new(cache, Ghost(CachePred {  })), directory }
    }

    /// Reload the cache from the scanned files: build the whole new
    /// entry set off to the side, then publish it in one atomic swap.
    /// Returns the names that loaded; a malformed file is skipped and
    /// the reload still succeeds.
    pub fn load_all(&self, files: &Vec<SourceFile>) -> (loaded: Vec<String>)
        ensures
            loaded@.map_values(|s: String| s@) == load_spec(
                files@.map_values(|f: SourceFile| f@),
            ).1,
    {
        let (cache, loaded) = build_cache(files);
        let (old_cache, handle) = self.prompts.acquire_write();
        proof {
            assert(self.prompts.pred() =~= CachePred {  });
        }
        handle.release_write(cache);
        loaded
    }

    /// A snapshot of the current entries: metadata only, no content,
    /// no disk access. Entry names are pairwise distinct.
    pub fn list(&self) -> (r: Vec<PromptInfo>)
        ensures
            forall|i: int, j: int| 0 <= i < j < r@.len() ==> r@[i].name@ != r@[j].name@,
    {
        let read = self.prompts.acquire_read();
        let cache = read.borrow();
        let mut r: Vec<PromptInfo> = Vec::new();
        let mut i: usize = 0;
        proof {
            assert(self.prompts.pred() =~= CachePred {  });
            assert(cache.wf());
        }
        while i < cache.entries.len()
            invariant
                i <= cache.entries@.len(),
                r@.len() == i,
                cache.wf(),
                forall|k: int| 0 <= k < i ==> r@[k].name@ == cache.entries@[k].name@,
            decreases cache.entries@.len() - i,
        {
            r.push(clone_info(&cache.entries[i]));
            i = i + 1;
        }
        read.release_read();
        r
    }

    /// The content-file path and entry of the prompt named `name` in
    /// the current snapshot, if any; the caller reads that path and
    /// parses what it finds there, so the body served is never stale.
    pub fn get_path(&self, name: &str) -> (r: Option<String>) {
        let read = self.prompts.acquire_read();
        let cache = read.borrow();
        let r = match cache.get(name) {
            Some(e) => Some(e.path.clone()),
            None => None,
        };
        read.release_read();
        r
    }

    /// Validate and render a loaded prompt: fail with the first
    /// missing required argument, in declaration order, else render the
    /// body the caller re-read from the entry's path.
    pub fn render(&self, file: &PromptFile, arguments: &PromptArgs) -> (r: Result<
        String,
        PromptError,
    >)
        ensures
            match first_missing(crate::library::args_view(file.metadata.arguments@), arguments@) {
                Some(n) => (r matches Err(e) && (e matches PromptError::MissingArgument(m) && m@
                    == n)),
                None => match render_spec(file.content@, arguments@) {
                    Some(s) => (r matches Ok(out) && out@ == s),
                    None => (r matches Err(e) && (e matches PromptError::InvalidTemplate { file: f }
                        && f@ == file.name@)),
                },
            },
    {
        render_checked(file.name.as_str(), &file.metadata.arguments, file.content.as_str(), arguments)
    }
}

} // verus!
