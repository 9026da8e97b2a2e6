//! The library configuration format.
//!
//! A configuration file declares prompts as tables `[prompts.<name>]`
//! with a quoted-string `description`, and arguments as array-of-tables
//! entries `[[prompts.<name>.arguments]]` with a quoted-string `name`,
//! an optional quoted-string `description` and a bare-boolean
//! `required`. Blank lines and `#` comments are skipped; unknown keys
//! and unknown tables are tolerated and skipped. A prompt without a
//! description, an argument entry without a name, a duplicate prompt
//! table, an unclosed header, or a keyed line without `=` makes the
//! whole configuration malformed. The grammar is given by the spec
//! functions below; the parser is verified against them.

use vstd::prelude::*;
use vstd::string::*;
use crate::library::{
    args_view, lemma_prompts_view_index, prompts_view, ArgModel, LibraryConfig, PromptArgument,
    PromptDefinition,
};
use crate::text::{
    chars_equal, chars_to_string, copy_range, find_char, find_char_vec, split_lines,
    split_to_lines, space_p, str_to_chars, trim_if, trim_spaces,
};

verus! {

/// An argument being built: name, description, required flag; the name
/// arrives through a later `name = "..."` line.
pub type ArgBuild = (Option<Seq<char>>, Option<Seq<char>>, bool);

/// A prompt being built: its name, its description once seen, its
/// argument entries.
pub type PromptBuild = (Seq<char>, Option<Seq<char>>, Seq<ArgBuild>);

/// The parse state: the prompts built so far, and the open section —
/// `(0, _)` top level, `(1, i)` the table of prompt `i`, `(2, i)` an
/// argument entry of prompt `i`, `(3, _)` an unknown, skipped table.
pub type ConfState = (Seq<PromptBuild>, (int, int));

/// One declared prompt: name, description, arguments.
pub type PromptModel = (Seq<char>, Seq<char>, Seq<ArgModel>);

/// A whole configuration: the declared prompts, in declaration order.
pub type ConfModel = Seq<PromptModel>;

/// The starting state.
pub open spec fn init_conf() -> ConfState {
    (Seq::empty(), (0int, 0int))
}

/// The `prompts.` prefix of a table header.
pub open spec fn kw_prompts_dot() -> Seq<char> {
    seq!['p', 'r', 'o', 'm', 'p', 't', 's', '.']
}

/// The `.arguments` suffix of an array-of-tables header.
pub open spec fn kw_dot_arguments() -> Seq<char> {
    seq!['.', 'a', 'r', 'g', 'u', 'm', 'e', 'n', 't', 's']
}

/// The prompt name of a `[prompts.<name>]` header's inner text, if it
/// has that shape: the name is non-empty and holds no dot.
pub open spec fn table_name(inner: Seq<char>) -> Option<Seq<char>> {
    if inner.len() > 8 && inner.subrange(0, 8) == kw_prompts_dot() {
        let x = inner.skip(8);
        if x.len() > 0 && find_char(x, '.') is None {
            Some(x)
        } else {
            None
        }
    } else {
        None
    }
}

/// The prompt name of a `[[prompts.<name>.arguments]]` header's inner
/// text, if it has that shape.
pub open spec fn array_name(inner: Seq<char>) -> Option<Seq<char>> {
    if inner.len() > 18 && inner.subrange(0, 8) == kw_prompts_dot() && inner.subrange(
        inner.len() - 10,
        inner.len() as int,
    ) == kw_dot_arguments() {
        let x = inner.subrange(8, inner.len() - 10);
        if x.len() > 0 && find_char(x, '.') is None {
            Some(x)
        } else {
            None
        }
    } else {
        None
    }
}

/// The index of the prompt named `x`, if any.
pub open spec fn prompt_idx(ps: Seq<PromptBuild>, x: Seq<char>) -> Option<int>
    decreases ps.len(),
{
    if ps.len() == 0 {
        None
    } else if ps[0].0 == x {
        Some(0)
    } else {
        match prompt_idx(ps.drop_first(), x) {
            None => None,
            Some(j) => Some(j + 1),
        }
    }
}

/// What `prompt_idx` finds: the first prompt of that name.
pub proof fn lemma_prompt_idx_props(ps: Seq<PromptBuild>, x: Seq<char>)
    ensures
        match prompt_idx(ps, x) {
            Some(j) => 0 <= j < ps.len() && ps[j].0 == x && forall|k: int|
                0 <= k < j ==> ps[k].0 != x,
            None => forall|k: int| 0 <= k < ps.len() ==> ps[k].0 != x,
        },
    decreases ps.len(),
{
    if ps.len() > 0 && ps[0].0 != x {
        let t = ps.drop_first();
        lemma_prompt_idx_props(t, x);
        assert(forall|k: int| 0 <= k < t.len() ==> t[k] == #[trigger] ps[k + 1]);
        match prompt_idx(t, x) {
            Some(j) => {
                assert forall|k: int| 0 <= k < j + 1 implies ps[k].0 != x by {
                    if k > 0 {
                        assert(t[k - 1] == ps[k]);
                    }
                }
            },
            None => {
                assert forall|k: int| 0 <= k < ps.len() implies ps[k].0 != x by {
                    if k > 0 {
                        assert(t[k - 1] == ps[k]);
                    }
                }
            },
        }
    }
}

/// A quoted string value: surrounding double quotes, no quote and no
/// backslash inside.
pub open spec fn conf_string(v: Seq<char>) -> Option<Seq<char>> {
    if v.len() >= 2 && v[0] == '"' && v.last() == '"' && (forall|k: int|
        1 <= k < v.len() - 1 ==> v[k] != '"' && v[k] != '\\') {
        Some(v.subrange(1, v.len() - 1))
    } else {
        None
    }
}

/// A bare boolean value.
pub open spec fn conf_bool(v: Seq<char>) -> Option<bool> {
    if v == seq!['t', 'r', 'u', 'e'] {
        Some(true)
    } else if v == seq!['f', 'a', 'l', 's', 'e'] {
        Some(false)
    } else {
        None
    }
}

/// Whether the open argument entry, if any, has received its name; a
/// section may only be left once it has.
pub open spec fn args_ok(st: ConfState) -> bool {
    st.1.0 == 2 ==> {
        let i = st.1.1;
        0 <= i < st.0.len() && st.0[i].2.len() > 0 && st.0[i].2.last().0 is Some
    }
}

/// One configuration line applied to the state; `None` marks a
/// malformed line or a defect it reveals.
pub open spec fn conf_step(st: ConfState, line: Seq<char>) -> Option<ConfState> {
    let t = trim_if(line, space_p());
    if t.len() == 0 {
        Some(st)
    } else if t[0] == '#' {
        Some(st)
    } else if t.len() >= 2 && t[0] == '[' && t[1] == '[' {
        if !args_ok(st) {
            None
        } else if t.len() >= 4 && t.last() == ']' && t[t.len() - 2] == ']' {
            match array_name(t.subrange(2, t.len() - 2)) {
                None => Some((st.0, (3int, 0int))),
                Some(x) => match prompt_idx(st.0, x) {
                    None => None,
                    Some(i) => {
                        let p = st.0[i];
                        Some((st.0.update(i, (p.0, p.1, p.2.push((None, None, false)))), (2int, i)))
                    },
                },
            }
        } else {
            None
        }
    } else if t[0] == '[' {
        if !args_ok(st) {
            None
        } else if t.len() >= 2 && t.last() == ']' {
            match table_name(t.subrange(1, t.len() - 1)) {
                None => Some((st.0, (3int, 0int))),
                Some(x) => if prompt_idx(st.0, x) is Some {
                    None
                } else {
                    Some((st.0.push((x, None, Seq::empty())), (1int, st.0.len() as int)))
                },
            }
        } else {
            None
        }
    } else {
        match find_char(t, '=') {
            None => None,
            Some(e) => if 0 <= e < t.len() {
                let k = trim_if(t.take(e), space_p());
                let v = trim_if(t.skip(e + 1), space_p());
                if st.1.0 == 0 || st.1.0 == 3 {
                    Some(st)
                } else if st.1.0 == 1 {
                    let i = st.1.1;
                    if k == seq!['d', 'e', 's', 'c', 'r', 'i', 'p', 't', 'i', 'o', 'n'] {
                        match conf_string(v) {
                            None => None,
                            Some(d) => {
                                let p = st.0[i];
                                Some((st.0.update(i, (p.0, Some(d), p.2)), st.1))
                            },
                        }
                    } else if k == seq!['a', 'r', 'g', 'u', 'm', 'e', 'n', 't', 's'] {
                        None
                    } else {
                        Some(st)
                    }
                } else {
                    let i = st.1.1;
                    let p = st.0[i];
                    let a = p.2.last();
                    if k == seq!['n', 'a', 'm', 'e'] {
                        match conf_string(v) {
                            None => None,
                            Some(d) => Some(
                                (
                                    st.0.update(
                                        i,
                                        (p.0, p.1, p.2.update(p.2.len() - 1, (Some(d), a.1, a.2))),
                                    ),
                                    st.1,
                                ),
                            ),
                        }
                    } else if k == seq!['d', 'e', 's', 'c', 'r', 'i', 'p', 't', 'i', 'o', 'n'] {
                        match conf_string(v) {
                            None => None,
                            Some(d) => Some(
                                (
                                    st.0.update(
                                        i,
                                        (p.0, p.1, p.2.update(p.2.len() - 1, (a.0, Some(d), a.2))),
                                    ),
                                    st.1,
                                ),
                            ),
                        }
                    } else if k == seq!['r', 'e', 'q', 'u', 'i', 'r', 'e', 'd'] {
                        match conf_bool(v) {
                            None => None,
                            Some(b) => Some(
                                (
                                    st.0.update(
                                        i,
                                        (p.0, p.1, p.2.update(p.2.len() - 1, (a.0, a.1, b))),
                                    ),
                                    st.1,
                                ),
                            ),
                        }
                    } else {
                        Some(st)
                    }
                }
            } else {
                None
            },
        }
    }
}

/// The configuration lines folded through `conf_step` from the front.
pub open spec fn run_conf(lines: Seq<Seq<char>>, st: ConfState) -> Option<ConfState>
    decreases lines.len(),
{
    if lines.len() == 0 {
        Some(st)
    } else {
        match conf_step(st, lines[0]) {
            None => None,
            Some(st2) => run_conf(lines.drop_first(), st2),
        }
    }
}

/// A finished argument entry: its name must have arrived.
pub open spec fn finish_args(s: Seq<ArgBuild>) -> Option<Seq<ArgModel>>
    decreases s.len(),
{
    if s.len() == 0 {
        Some(Seq::empty())
    } else {
        match finish_args(s.drop_last()) {
            None => None,
            Some(r) => match s.last().0 {
                None => None,
                Some(n) => Some(r.push((n, s.last().1, s.last().2))),
            },
        }
    }
}

/// Finished prompts: each needs its description.
pub open spec fn finish_prompts(s: Seq<PromptBuild>) -> Option<ConfModel>
    decreases s.len(),
{
    if s.len() == 0 {
        Some(Seq::empty())
    } else {
        match finish_prompts(s.drop_last()) {
            None => None,
            Some(r) => match (s.last().1, finish_args(s.last().2)) {
                (Some(d), Some(a)) => Some(r.push((s.last().0, d, a))),
                _ => None,
            },
        }
    }
}

/// What a configuration text parses to, or `None` when malformed.
pub open spec fn parse_config_spec(s: Seq<char>) -> Option<ConfModel> {
    match run_conf(split_lines(s), init_conf()) {
        None => None,
        Some(st) => if args_ok(st) {
            finish_prompts(st.0)
        } else {
            None
        },
    }
}

/// `prompt_idx` returns exactly the first prompt of that name.
proof fn lemma_prompt_idx_first(ps: Seq<PromptBuild>, x: Seq<char>, j: int)
    requires
        0 <= j < ps.len(),
        ps[j].0 == x,
        forall|k: int| 0 <= k < j ==> ps[k].0 != x,
    ensures
        prompt_idx(ps, x) == Some(j),
    decreases j,
{
    if j > 0 {
        let t = ps.drop_first();
        assert(t[j - 1] == ps[j]);
        assert forall|k: int| 0 <= k < j - 1 implies t[k].0 != x by {
            assert(t[k] == ps[k + 1]);
        }
        lemma_prompt_idx_first(t, x, j - 1);
    }
}

/// With no prompt of that name, `prompt_idx` finds nothing.
proof fn lemma_prompt_idx_none(ps: Seq<PromptBuild>, x: Seq<char>)
    requires
        forall|k: int| 0 <= k < ps.len() ==> ps[k].0 != x,
    ensures
        prompt_idx(ps, x) is None,
    decreases ps.len(),
{
    if ps.len() > 0 {
        let t = ps.drop_first();
        assert forall|k: int| 0 <= k < t.len() implies t[k].0 != x by {
            assert(t[k] == ps[k + 1]);
        }
        lemma_prompt_idx_none(t, x);
    }
}

/// An argument entry being built.
struct ArgBuildE {
    name: Option<String>,
    description: Option<String>,
    required: bool,
}

impl ArgBuildE {
    spec fn m(&self) -> ArgBuild {
        (self.name.deep_view(), self.description.deep_view(), self.required)
    }
}

/// The models of built argument entries, in order.
spec fn abs_view(s: Seq<ArgBuildE>) -> Seq<ArgBuild>
    decreases s.len(),
{
    if s.len() == 0 {
        Seq::empty()
    } else {
        abs_view(s.drop_last()).push(s.last().m())
    }
}

proof fn lemma_abs_view_index(s: Seq<ArgBuildE>)
    ensures
        abs_view(s).len() == s.len(),
        forall|i: int| 0 <= i < s.len() ==> abs_view(s)[i] == s[i].m(),
    decreases s.len(),
{
    if s.len() > 0 {
        lemma_abs_view_index(s.drop_last());
        assert(forall|i: int| 0 <= i < s.len() - 1 ==> s.drop_last()[i] == #[trigger] s[i]);
    }
}

/// A prompt being built.
struct PromptBuildE {
    name: String,
    description: Option<String>,
    args: Vec<ArgBuildE>,
}

impl PromptBuildE {
    spec fn m(&self) -> PromptBuild {
        (self.name@, self.description.deep_view(), abs_view(self.args@))
    }
}

/// The models of built prompts, in order.
spec fn pbs_view(s: Seq<PromptBuildE>) -> Seq<PromptBuild>
    decreases s.len(),
{
    if s.len() == 0 {
        Seq::empty()
    } else {
        pbs_view(s.drop_last()).push(s.last().m())
    }
}

proof fn lemma_pbs_view_index(s: Seq<PromptBuildE>)
    ensures
        pbs_view(s).len() == s.len(),
        forall|i: int| 0 <= i < s.len() ==> pbs_view(s)[i] == s[i].m(),
    decreases s.len(),
{
    if s.len() > 0 {
        lemma_pbs_view_index(s.drop_last());
        assert(forall|i: int| 0 <= i < s.len() - 1 ==> s.drop_last()[i] == #[trigger] s[i]);
    }
}

/// The whole parse state being built.
struct ConfBuild {
    prompts: Vec<PromptBuildE>,
    kind: usize,
    idx: usize,
}

impl ConfBuild {
    spec fn st(&self) -> ConfState {
        (pbs_view(self.prompts@), (self.kind as int, self.idx as int))
    }

    /// The open section points at an existing prompt, and an argument
    /// section at an existing entry; prompt names are distinct.
    spec fn wf(&self) -> bool {
        &&& self.kind <= 3
        &&& (self.kind == 1 || self.kind == 2) ==> self.idx < self.prompts@.len()
        &&& self.kind == 2 ==> self.prompts@[self.idx as int].args@.len() > 0
        &&& forall|i: int, j: int|
            0 <= i < j < self.prompts@.len() ==> self.prompts@[i].name@ != self.prompts@[j].name@
    }
}

/// Whether the open argument entry, if any, has its name.
fn args_ok_exec(cb: &ConfBuild) -> (r: bool)
    requires
        cb.wf(),
    ensures
        r == args_ok(cb.st()),
{
    proof {
        lemma_pbs_view_index(cb.prompts@);
        if cb.kind == 2 {
            lemma_abs_view_index(cb.prompts@[cb.idx as int].args@);
        }
    }
    if cb.kind != 2 {
        return true;
    }
    let p = &cb.prompts[cb.idx];
    match &p.args[p.args.len() - 1].name {
        Some(_) => true,
        None => false,
    }
}

/// Parse a quoted string value.
fn conf_string_exec(v: &Vec<char>) -> (r: Option<Vec<char>>)
    ensures
        match r {
            Some(d) => conf_string(v@) == Some(d@),
            None => conf_string(v@) is None,
        },
{
    let n = v.len();
    if n < 2 || v[0] != '"' || v[n - 1] != '"' {
        return None;
    }
    let mut k: usize = 1;
    while k < n - 1
        invariant
            2 <= n == v@.len(),
            1 <= k <= n - 1,
            forall|j: int| 1 <= j < k ==> v@[j] != '"' && v@[j] != '\\',
        decreases n - k,
    {
        if v[k] == '"' || v[k] == '\\' {
            return None;
        }
        k = k + 1;
    }
    Some(copy_range(v, 1, n - 1))
}

/// Parse a bare boolean value.
fn conf_bool_exec(v: &Vec<char>) -> (r: Option<bool>)
    ensures
        match r {
            Some(b) => conf_bool(v@) == Some(b),
            None => conf_bool(v@) is None,
        },
{
    let kw_true: Vec<char> = vec!['t', 'r', 'u', 'e'];
    let kw_false: Vec<char> = vec!['f', 'a', 'l', 's', 'e'];
    proof {
        assert(kw_true@ =~= seq!['t', 'r', 'u', 'e']);
        assert(kw_false@ =~= seq!['f', 'a', 'l', 's', 'e']);
    }
    if chars_equal(v, &kw_true) {
        Some(true)
    } else if chars_equal(v, &kw_false) {
        Some(false)
    } else {
        None
    }
}

/// Extract the prompt name of a `[prompts.<name>]` header's inner text.
fn table_name_exec(inner: &Vec<char>) -> (r: Option<Vec<char>>)
    ensures
        match r {
            Some(x) => table_name(inner@) == Some(x@),
            None => table_name(inner@) is None,
        },
{
    let kw: Vec<char> = vec!['p', 'r', 'o', 'm', 'p', 't', 's', '.'];
    proof {
        assert(kw@ =~= kw_prompts_dot());
    }
    let n = inner.len();
    if n <= 8 {
        return None;
    }
    let pre = copy_range(inner, 0, 8);
    if !chars_equal(&pre, &kw) {
        return None;
    }
    let x = copy_range(inner, 8, n);
    proof {
        assert(x@ =~= inner@.skip(8));
    }
    if x.len() == 0 {
        return None;
    }
    match find_char_vec(&x, '.') {
        Some(_) => None,
        None => Some(x),
    }
}

/// Extract the prompt name of a `[[prompts.<name>.arguments]]` header's
/// inner text.
fn array_name_exec(inner: &Vec<char>) -> (r: Option<Vec<char>>)
    ensures
        match r {
            Some(x) => array_name(inner@) == Some(x@),
            None => array_name(inner@) is None,
        },
{
    let kw: Vec<char> = vec!['p', 'r', 'o', 'm', 'p', 't', 's', '.'];
    let suf: Vec<char> = vec!['.', 'a', 'r', 'g', 'u', 'm', 'e', 'n', 't', 's'];
    proof {
        assert(kw@ =~= kw_prompts_dot());
        assert(suf@ =~= kw_dot_arguments());
    }
    let n = inner.len();
    if n <= 18 {
        return None;
    }
    let pre = copy_range(inner, 0, 8);
    if !chars_equal(&pre, &kw) {
        return None;
    }
    let end = copy_range(inner, n - 10, n);
    if !chars_equal(&end, &suf) {
        return None;
    }
    let x = copy_range(inner, 8, n - 10);
    if x.len() == 0 {
        return None;
    }
    match find_char_vec(&x, '.') {
        Some(_) => None,
        None => Some(x),
    }
}

/// The index of the prompt named `x`, if any.
fn find_prompt_exec(ps: &Vec<PromptBuildE>, x: &Vec<char>) -> (r: Option<usize>)
    ensures
        match r {
            Some(i) => i < ps@.len() && prompt_idx(pbs_view(ps@), x@) == Some(i as int),
            None => prompt_idx(pbs_view(ps@), x@) is None,
        },
{
    proof {
        lemma_pbs_view_index(ps@);
    }
    let xs = chars_to_string(x);
    let mut i: usize = 0;
    while i < ps.len()
        invariant
            i <= ps@.len(),
            xs@ == x@,
            forall|j: int| 0 <= j < i ==> ps@[j].name@ != x@,
        decreases ps@.len() - i,
    {
        if crate::text::str_eq(ps[i].name.as_str(), xs.as_str()) {
            proof {
                lemma_pbs_view_index(ps@);
                assert forall|k: int| 0 <= k < i implies pbs_view(ps@)[k].0 != x@ by {
                    assert(pbs_view(ps@)[k] == ps@[k].m());
                }
                lemma_prompt_idx_first(pbs_view(ps@), x@, i as int);
            }
            return Some(i);
        }
        i = i + 1;
    }
    proof {
        lemma_pbs_view_index(ps@);
        assert forall|k: int| 0 <= k < pbs_view(ps@).len() implies pbs_view(ps@)[k].0 != x@ by {
            assert(pbs_view(ps@)[k] == ps@[k].m());
        }
        lemma_prompt_idx_none(pbs_view(ps@), x@);
    }
    None
}

/// Replace the prompt at `i`, preserving the viewed state shape.
fn put_prompt(ps: &mut Vec<PromptBuildE>, i: usize, p: PromptBuildE)
    requires
        i < old(ps)@.len(),
    ensures
        final(ps)@ == old(ps)@.update(i as int, p),
        pbs_view(final(ps)@) == pbs_view(old(ps)@).update(i as int, p.m()),
{
    let ghost o = ps@;
    let _ = ps.remove(i);
    ps.insert(i, p);
    proof {
        assert(ps@ =~= o.update(i as int, ps@[i as int]));
        lemma_pbs_view_index(o);
        lemma_pbs_view_index(ps@);
        assert forall|k: int| 0 <= k < pbs_view(ps@).len() implies pbs_view(ps@)[k] == pbs_view(
            o,
        ).update(i as int, ps@[i as int].m())[k] by {
            if k != i {
                assert(ps@[k] == o[k]);
            }
        }
        assert(pbs_view(ps@) =~= pbs_view(o).update(i as int, ps@[i as int].m()));
    }
}

/// Append a fresh argument entry to prompt `i`.
fn push_arg(ps: &mut Vec<PromptBuildE>, i: usize)
    requires
        i < old(ps)@.len(),
    ensures
        ({
            let o = pbs_view(old(ps)@);
            let p = o[i as int];
            pbs_view(final(ps)@) == o.update(i as int, (p.0, p.1, p.2.push((None, None, false))))
        }),
        final(ps)@.len() == old(ps)@.len(),
        forall|k: int| 0 <= k < final(ps)@.len() ==> final(ps)@[k].name@ == old(ps)@[k].name@,
        final(ps)@[i as int].args@.len() > 0,
{
    let ghost o = ps@;
    let mut p = ps.remove(i);
    let ghost args0 = p.args@;
    p.args.push(ArgBuildE { name: None, description: None, required: false });
    proof {
        assert(p.args@.drop_last() =~= args0);
        assert(abs_view(p.args@) == abs_view(args0).push((None, None, false)));
    }
    let ghost pm = p.m();
    ps.insert(i, p);
    proof {
        assert(ps@ =~= o.update(i as int, ps@[i as int]));
        lemma_pbs_view_index(o);
        lemma_pbs_view_index(ps@);
        assert forall|k: int| 0 <= k < pbs_view(ps@).len() implies pbs_view(ps@)[k] == pbs_view(
            o,
        ).update(i as int, pm)[k] by {
            if k != i {
                assert(ps@[k] == o[k]);
            }
        }
        assert(pbs_view(ps@) =~= pbs_view(o).update(i as int, pm));
        assert forall|k: int| 0 <= k < ps@.len() implies ps@[k].name@ == o[k].name@ by {
            if k != i {
                assert(ps@[k] == o[k]);
            }
        }
    }
}

/// Set the description of prompt `i`.
fn set_prompt_desc(ps: &mut Vec<PromptBuildE>, i: usize, d: String)
    requires
        i < old(ps)@.len(),
    ensures
        ({
            let o = pbs_view(old(ps)@);
            let p = o[i as int];
            pbs_view(final(ps)@) == o.update(i as int, (p.0, Some(d@), p.2))
        }),
        final(ps)@.len() == old(ps)@.len(),
        forall|k: int| 0 <= k < final(ps)@.len() ==> final(ps)@[k].name@ == old(ps)@[k].name@,
        forall|k: int|
            0 <= k < final(ps)@.len() ==> final(ps)@[k].args@.len() == old(ps)@[k].args@.len(),
{
    let ghost o = ps@;
    let mut p = ps.remove(i);
    p.description = Some(d);
    let ghost pm = p.m();
    ps.insert(i, p);
    proof {
        assert(ps@ =~= o.update(i as int, ps@[i as int]));
        lemma_pbs_view_index(o);
        lemma_pbs_view_index(ps@);
        assert forall|k: int| 0 <= k < pbs_view(ps@).len() implies pbs_view(ps@)[k] == pbs_view(
            o,
        ).update(i as int, pm)[k] by {
            if k != i {
                assert(ps@[k] == o[k]);
            }
        }
        assert(pbs_view(ps@) =~= pbs_view(o).update(i as int, pm));
        assert forall|k: int| 0 <= k < ps@.len() implies ps@[k].name@ == o[k].name@ && ps@[k].args@.len()
            == o[k].args@.len() by {
            if k != i {
                assert(ps@[k] == o[k]);
            }
        }
    }
}

/// Merge fields into the last argument entry of prompt `i`: each given
/// option replaces the entry's field.
fn update_prompt_arg(
    ps: &mut Vec<PromptBuildE>,
    i: usize,
    name: Option<String>,
    desc: Option<String>,
    req: Option<bool>,
)
    requires
        i < old(ps)@.len(),
        old(ps)@[i as int].args@.len() > 0,
    ensures
        ({
            let o = pbs_view(old(ps)@);
            let p = o[i as int];
            let a = p.2.last();
            let merged = (
                if name is Some {
                    Some(name->0@)
                } else {
                    a.0
                },
                if desc is Some {
                    Some(desc->0@)
                } else {
                    a.1
                },
                if req is Some {
                    req->0
                } else {
                    a.2
                },
            );
            pbs_view(final(ps)@) == o.update(i as int, (p.0, p.1, p.2.update(p.2.len() - 1, merged)))
        }),
        final(ps)@.len() == old(ps)@.len(),
        forall|k: int| 0 <= k < final(ps)@.len() ==> final(ps)@[k].name@ == old(ps)@[k].name@,
        forall|k: int|
            0 <= k < final(ps)@.len() ==> final(ps)@[k].args@.len() == old(ps)@[k].args@.len(),
{
    let ghost o = ps@;
    let mut p = ps.remove(i);
    let ghost args0 = p.args@;
    let mut a = match p.args.pop() {
        Some(a) => a,
        None => {
            proof {
                assert(false);
            }
            ArgBuildE { name: None, description: None, required: false }
        },
    };
    let ghost am0 = a.m();
    match name {
        Some(x) => {
            a.name = Some(x);
        },
        None => {},
    }
    match desc {
        Some(x) => {
            a.description = Some(x);
        },
        None => {},
    }
    match req {
        Some(x) => {
            a.required = x;
        },
        None => {},
    }
    let ghost am = a.m();
    p.args.push(a);
    proof {
        assert(p.args@ =~= args0.update(args0.len() - 1, p.args@.last()));
        lemma_abs_view_index(args0);
        lemma_abs_view_index(p.args@);
        assert(abs_view(args0).last() == am0);
        assert forall|k: int| 0 <= k < abs_view(p.args@).len() implies abs_view(p.args@)[k]
            == abs_view(args0).update(args0.len() - 1, am)[k] by {
            if k < args0.len() - 1 {
                assert(p.args@[k] == args0[k]);
            }
        }
        assert(abs_view(p.args@) =~= abs_view(args0).update(args0.len() - 1, am));
    }
    let ghost pm = p.m();
    ps.insert(i, p);
    proof {
        assert(ps@ =~= o.update(i as int, ps@[i as int]));
        lemma_pbs_view_index(o);
        lemma_pbs_view_index(ps@);
        assert forall|k: int| 0 <= k < pbs_view(ps@).len() implies pbs_view(ps@)[k] == pbs_view(
            o,
        ).update(i as int, pm)[k] by {
            if k != i {
                assert(ps@[k] == o[k]);
            }
        }
        assert(pbs_view(ps@) =~= pbs_view(o).update(i as int, pm));
        assert forall|k: int| 0 <= k < ps@.len() implies ps@[k].name@ == o[k].name@ && ps@[k].args@.len()
            == o[k].args@.len() by {
            if k != i {
                assert(ps@[k] == o[k]);
            }
        }
    }
}

/// Append a new prompt named `x`, with no description yet.
fn push_prompt(ps: &mut Vec<PromptBuildE>, x: String)
    ensures
        pbs_view(final(ps)@) == pbs_view(old(ps)@).push((x@, None, Seq::empty())),
        final(ps)@.len() == old(ps)@.len() + 1,
        forall|k: int| 0 <= k < old(ps)@.len() ==> final(ps)@[k].name@ == old(ps)@[k].name@,
        final(ps)@[old(ps)@.len() as int].name@ == x@,
        forall|k: int|
            0 <= k < old(ps)@.len() ==> final(ps)@[k].args@.len() == old(ps)@[k].args@.len(),
{
    let ghost o = ps@;
    let ghost xm = x@;
    let p = PromptBuildE { name: x, description: None, args: Vec::new() };
    proof {
        assert(abs_view(Seq::<ArgBuildE>::empty()) =~= Seq::<ArgBuild>::empty());
        assert(p.m() == (xm, None::<Seq<char>>, Seq::<ArgBuild>::empty()));
    }
    ps.push(p);
    proof {
        assert(ps@.drop_last() =~= o);
        assert forall|k: int| 0 <= k < o.len() implies ps@[k].name@ == o[k].name@ && ps@[k].args@.len()
            == o[k].args@.len() by {
            assert(ps@[k] == o[k]);
        }
    }
}

/// Apply one configuration line to the state; false marks a malformed
/// line or a defect it reveals.
fn conf_step_exec(cb: &mut ConfBuild, line: &Vec<char>) -> (ok: bool)
    requires
        old(cb).wf(),
    ensures
        final(cb).wf(),
        ok ==> conf_step(old(cb).st(), line@) == Some(final(cb).st()),
        !ok ==> conf_step(old(cb).st(), line@) is None,
{
    let t = trim_spaces(line);
    if t.len() == 0 {
        return true;
    }
    if t[0] == '#' {
        return true;
    }
    let n = t.len();
    if n >= 2 && t[0] == '[' && t[1] == '[' {
        if !args_ok_exec(cb) {
            return false;
        }
        if n >= 4 && t[n - 1] == ']' && t[n - 2] == ']' {
            let inner = copy_range(&t, 2, n - 2);
            match array_name_exec(&inner) {
                None => {
                    cb.kind = 3;
                    cb.idx = 0;
                    true
                },
                Some(x) => match find_prompt_exec(&cb.prompts, &x) {
                    None => false,
                    Some(i) => {
                        let ghost ops = cb.prompts@;
                        proof {
                            lemma_pbs_view_index(cb.prompts@);
                        }
                        push_arg(&mut cb.prompts, i);
                        cb.kind = 2;
                        cb.idx = i;
                        proof {
                            assert forall|a: int, b: int|
                                0 <= a < b < cb.prompts@.len() implies cb.prompts@[a].name@
                                != cb.prompts@[b].name@ by {
                                assert(cb.prompts@[a].name@ == ops[a].name@);
                                assert(cb.prompts@[b].name@ == ops[b].name@);
                            }
                        }
                        true
                    },
                },
            }
        } else {
            false
        }
    } else if t[0] == '[' {
        if !args_ok_exec(cb) {
            return false;
        }
        if n >= 2 && t[n - 1] == ']' {
            let inner = copy_range(&t, 1, n - 1);
            match table_name_exec(&inner) {
                None => {
                    cb.kind = 3;
                    cb.idx = 0;
                    true
                },
                Some(x) => match find_prompt_exec(&cb.prompts, &x) {
                    Some(_) => false,
                    None => {
                        let newidx = cb.prompts.len();
                        let ghost ops = cb.prompts@;
                        proof {
                            lemma_prompt_idx_props(pbs_view(cb.prompts@), x@);
                            lemma_pbs_view_index(cb.prompts@);
                            assert forall|k: int|
                                0 <= k < ops.len() implies #[trigger] ops[k].name@ != x@ by {
                                assert(pbs_view(ops)[k] == ops[k].m());
                                assert(pbs_view(ops)[k].0 != x@);
                            }
                        }
                        push_prompt(&mut cb.prompts, chars_to_string(&x));
                        cb.kind = 1;
                        cb.idx = newidx;
                        proof {
                            assert forall|a: int, b: int|
                                0 <= a < b < cb.prompts@.len() implies cb.prompts@[a].name@
                                != cb.prompts@[b].name@ by {
                                assert(cb.prompts@[a].name@ == ops[a].name@);
                                if b < ops.len() {
                                    assert(cb.prompts@[b].name@ == ops[b].name@);
                                } else {
                                    assert(cb.prompts@[b].name@ == x@);
                                }
                            }
                        }
                        true
                    },
                },
            }
        } else {
            false
        }
    } else {
        match find_char_vec(&t, '=') {
            None => false,
            Some(e) => {
                let m = t.len();
                let left = copy_range(&t, 0, e);
                let right = copy_range(&t, e + 1, m);
                proof {
                    assert(left@ =~= t@.take(e as int));
                    assert(right@ =~= t@.skip(e as int + 1));
                }
                let k = trim_spaces(&left);
                let v = trim_spaces(&right);
                let kw_desc: Vec<char> = vec![
                    'd',
                    'e',
                    's',
                    'c',
                    'r',
                    'i',
                    'p',
                    't',
                    'i',
                    'o',
                    'n',
                ];
                let kw_args: Vec<char> = vec!['a', 'r', 'g', 'u', 'm', 'e', 'n', 't', 's'];
                let kw_name: Vec<char> = vec!['n', 'a', 'm', 'e'];
                let kw_req: Vec<char> = vec!['r', 'e', 'q', 'u', 'i', 'r', 'e', 'd'];
                proof {
                    assert(kw_desc@ =~= seq![
                        'd',
                        'e',
                        's',
                        'c',
                        'r',
                        'i',
                        'p',
                        't',
                        'i',
                        'o',
                        'n',
                    ]);
                    assert(kw_args@ =~= seq!['a', 'r', 'g', 'u', 'm', 'e', 'n', 't', 's']);
                    assert(kw_name@ =~= seq!['n', 'a', 'm', 'e']);
                    assert(kw_req@ =~= seq!['r', 'e', 'q', 'u', 'i', 'r', 'e', 'd']);
                }
                if cb.kind == 0 || cb.kind == 3 {
                    true
                } else if cb.kind == 1 {
                    if chars_equal(&k, &kw_desc) {
                        match conf_string_exec(&v) {
                            None => false,
                            Some(d) => {
                                let ghost ops = cb.prompts@;
                                proof {
                                    lemma_pbs_view_index(cb.prompts@);
                                }
                                set_prompt_desc(&mut cb.prompts, cb.idx, chars_to_string(&d));
                                proof {
                                    assert forall|a: int, b: int|
                                        0 <= a < b < cb.prompts@.len() implies cb.prompts@[a].name@
                                        != cb.prompts@[b].name@ by {
                                        assert(cb.prompts@[a].name@ == ops[a].name@);
                                        assert(cb.prompts@[b].name@ == ops[b].name@);
                                    }
                                }
                                true
                            },
                        }
                    } else if chars_equal(&k, &kw_args) {
                        false
                    } else {
                        true
                    }
                } else {
                    if chars_equal(&k, &kw_name) {
                        match conf_string_exec(&v) {
                            None => false,
                            Some(d) => {
                                let ghost ops = cb.prompts@;
                                proof {
                                    lemma_pbs_view_index(cb.prompts@);
                                }
                                update_prompt_arg(
                                    &mut cb.prompts,
                                    cb.idx,
                                    Some(chars_to_string(&d)),
                                    None,
                                    None,
                                );
                                proof {
                                    assert forall|a: int, b: int|
                                        0 <= a < b < cb.prompts@.len() implies cb.prompts@[a].name@
                                        != cb.prompts@[b].name@ by {
                                        assert(cb.prompts@[a].name@ == ops[a].name@);
                                        assert(cb.prompts@[b].name@ == ops[b].name@);
                                    }
                                }
                                true
                            },
                        }
                    } else if chars_equal(&k, &kw_desc) {
                        match conf_string_exec(&v) {
                            None => false,
                            Some(d) => {
                                let ghost ops = cb.prompts@;
                                proof {
                                    lemma_pbs_view_index(cb.prompts@);
                                }
                                update_prompt_arg(
                                    &mut cb.prompts,
                                    cb.idx,
                                    None,
                                    Some(chars_to_string(&d)),
                                    None,
                                );
                                proof {
                                    assert forall|a: int, b: int|
                                        0 <= a < b < cb.prompts@.len() implies cb.prompts@[a].name@
                                        != cb.prompts@[b].name@ by {
                                        assert(cb.prompts@[a].name@ == ops[a].name@);
                                        assert(cb.prompts@[b].name@ == ops[b].name@);
                                    }
                                }
                                true
                            },
                        }
                    } else if chars_equal(&k, &kw_req) {
                        match conf_bool_exec(&v) {
                            None => false,
                            Some(b) => {
                                let ghost ops = cb.prompts@;
                                proof {
                                    lemma_pbs_view_index(cb.prompts@);
                                }
                                update_prompt_arg(&mut cb.prompts, cb.idx, None, None, Some(b));
                                proof {
                                    assert forall|x: int, y: int|
                                        0 <= x < y < cb.prompts@.len() implies cb.prompts@[x].name@
                                        != cb.prompts@[y].name@ by {
                                        assert(cb.prompts@[x].name@ == ops[x].name@);
                                        assert(cb.prompts@[y].name@ == ops[y].name@);
                                    }
                                }
                                true
                            },
                        }
                    } else {
                        true
                    }
                }
            },
        }
    }
}

/// Turn built argument entries into declared arguments; `None` when an
/// entry lacks its name.
fn build_args(args: &Vec<ArgBuildE>) -> (r: Option<Vec<PromptArgument>>)
    ensures
        match r {
            Some(b) => finish_args(abs_view(args@)) == Some(args_view(b@)),
            None => finish_args(abs_view(args@)) is None,
        },
{
    let ghost av = abs_view(args@);
    proof {
        lemma_abs_view_index(args@);
    }
    let na = args.len();
    let mut built: Vec<PromptArgument> = Vec::new();
    let mut j: usize = 0;
    proof {
        assert(av.subrange(0, 0) =~= Seq::<ArgBuild>::empty());
        assert(args_view(built@) =~= Seq::<ArgModel>::empty());
        assert(finish_args(av.subrange(0, 0)) == Some(args_view(built@)));
    }
    while j < na
        invariant
            j <= na,
            na == args@.len(),
            av == abs_view(args@),
            av.len() == na,
            forall|k: int| 0 <= k < na ==> av[k] == args@[k].m(),
            finish_args(av.subrange(0, j as int)) == Some(args_view(built@)),
        decreases na - j,
    {
        let ghost aseg = av.subrange(0, j as int + 1);
        proof {
            assert(aseg.drop_last() =~= av.subrange(0, j as int));
            assert(aseg.last() == av[j as int]);
        }
        let a = &args[j];
        let aname = match &a.name {
            Some(x) => x,
            None => {
                proof {
                    assert(finish_args(aseg) is None);
                    lemma_finish_args_prefix_none(av, j as int + 1);
                }
                return None;
            },
        };
        let ghost built0 = built@;
        built.push(
            PromptArgument {
                name: aname.clone(),
                description: match &a.description {
                    Some(d) => Some(d.clone()),
                    None => None,
                },
                required: a.required,
            },
        );
        proof {
            assert(built@.drop_last() =~= built0);
        }
        j = j + 1;
    }
    proof {
        assert(av.subrange(0, na as int) =~= av);
    }
    Some(built)
}

/// Turn the finished build into a configuration; `None` when a prompt
/// lacks its description or an argument entry its name.
fn finalize(cb: &ConfBuild) -> (r: Option<LibraryConfig>)
    requires
        cb.wf(),
    ensures
        match r {
            Some(c) => finish_prompts(pbs_view(cb.prompts@)) == Some(c@) && c.wf(),
            None => finish_prompts(pbs_view(cb.prompts@)) is None,
        },
{
    let ghost pv = pbs_view(cb.prompts@);
    proof {
        lemma_pbs_view_index(cb.prompts@);
    }
    let n = cb.prompts.len();
    let mut out: Vec<(String, PromptDefinition)> = Vec::new();
    let mut i: usize = 0;
    proof {
        assert(pv.subrange(0, 0) =~= Seq::<PromptBuild>::empty());
        assert(prompts_view(out@) =~= Seq::<PromptModel>::empty());
        assert(finish_prompts(pv.subrange(0, 0)) == Some(prompts_view(out@)));
    }
    while i < n
        invariant
            i <= n,
            n == cb.prompts@.len(),
            pv == pbs_view(cb.prompts@),
            pv.len() == n,
            forall|k: int|
                0 <= k < n ==> pv[k] == (
                    cb.prompts@[k].name@,
                    cb.prompts@[k].description.deep_view(),
                    abs_view(cb.prompts@[k].args@),
                ),
            out@.len() == i,
            forall|k: int| 0 <= k < i ==> out@[k].0@ == cb.prompts@[k].name@,
            finish_prompts(pv.subrange(0, i as int)) == Some(prompts_view(out@)),
        decreases n - i,
    {
        let p = &cb.prompts[i];
        let ghost seg = pv.subrange(0, i as int + 1);
        proof {
            assert(seg.drop_last() =~= pv.subrange(0, i as int));
            assert(seg.last() == pv[i as int]);
        }
        let desc = match &p.description {
            Some(d) => d,
            None => {
                proof {
                    assert(finish_prompts(seg) is None);
                    lemma_finish_prompts_prefix_none(pv, i as int + 1);
                }
                return None;
            },
        };
        let built_args = match build_args(&p.args) {
            Some(b) => b,
            None => {
                proof {
                    assert(finish_prompts(seg) is None);
                    lemma_finish_prompts_prefix_none(pv, i as int + 1);
                }
                return None;
            },
        };
        let ghost out0 = out@;
        out.push((p.name.clone(), PromptDefinition { description: desc.clone(), arguments: built_args }));
        proof {
            assert(out@.drop_last() =~= out0);
        }
        i = i + 1;
    }
    proof {
        assert(pv.subrange(0, n as int) =~= pv);
    }
    let c = LibraryConfig { prompts: out };
    proof {
        lemma_prompts_view_index(c.prompts@);
    }
    Some(c)
}

/// A prefix that already fails keeps the whole sequence failing.
proof fn lemma_finish_args_prefix_none(s: Seq<ArgBuild>, i: int)
    requires
        0 <= i <= s.len(),
        finish_args(s.subrange(0, i)) is None,
    ensures
        finish_args(s) is None,
    decreases s.len() - i,
{
    if i == s.len() {
        assert(s.subrange(0, i) =~= s);
    } else {
        let next = s.subrange(0, i + 1);
        assert(next.drop_last() =~= s.subrange(0, i));
        lemma_finish_args_prefix_none(s, i + 1);
    }
}

/// A prefix that already fails keeps the whole sequence failing.
proof fn lemma_finish_prompts_prefix_none(s: Seq<PromptBuild>, i: int)
    requires
        0 <= i <= s.len(),
        finish_prompts(s.subrange(0, i)) is None,
    ensures
        finish_prompts(s) is None,
    decreases s.len() - i,
{
    if i == s.len() {
        assert(s.subrange(0, i) =~= s);
    } else {
        let next = s.subrange(0, i + 1);
        assert(next.drop_last() =~= s.subrange(0, i));
        lemma_finish_prompts_prefix_none(s, i + 1);
    }
}

/// Parse a library configuration text. `None` marks a malformed
/// configuration; the parsed one has pairwise distinct prompt names.
pub fn parse_library_config(text: &str) -> (r: Option<LibraryConfig>)
    ensures
        match r {
            Some(c) => parse_config_spec(text@) == Some(c@) && c.wf(),
            None => parse_config_spec(text@) is None,
        },
{
    let v = str_to_chars(text);
    let lines = split_to_lines(&v);
    let ghost lv = lines@.map_values(|l: Vec<char>| l@);
    let mut cb = ConfBuild { prompts: Vec::new(), kind: 0, idx: 0 };
    proof {
        assert(pbs_view(Seq::<PromptBuildE>::empty()) =~= Seq::<PromptBuild>::empty());
        assert(cb.st() == init_conf());
        assert(lv.skip(0) =~= lv);
    }
    let n = lines.len();
    let mut i: usize = 0;
    while i < n
        invariant
            i <= n,
            n == lines@.len(),
            n == lv.len(),
            lv == lines@.map_values(|l: Vec<char>| l@),
            lv == split_lines(v@),
            v@ == text@,
            cb.wf(),
            run_conf(lv, init_conf()) == run_conf(lv.skip(i as int), cb.st()),
        decreases n - i,
    {
        let ghost seg = lv.skip(i as int);
        proof {
            assert(lines@.map_values(|l: Vec<char>| l@)[i as int] == lines@[i as int]@);
            assert(seg[0] == lv[i as int]);
            assert(seg.drop_first() =~= lv.skip(i as int + 1));
        }
        let ok = conf_step_exec(&mut cb, &lines[i]);
        if !ok {
            return None;
        }
        i = i + 1;
    }
    proof {
        assert(lv.skip(n as int) =~= Seq::<Seq<char>>::empty());
        assert(split_lines(text@) == lv);
        assert(run_conf(split_lines(text@), init_conf()) == Some(cb.st()));
    }
    if !args_ok_exec(&cb) {
        return None;
    }
    let r = finalize(&cb);
    proof {
        assert(parse_config_spec(text@) == finish_prompts(pbs_view(cb.prompts@)));
    }
    r
}

} // verus!
