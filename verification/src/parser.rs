//! The content-file format: a frontmatter block between `---` delimiter
//! lines, then the template body, verbatim through end of file.
//!
//! The block's fields are `title`, `description` and `arguments`, the
//! last a list of items `- name: ...` with optional `description` and
//! `required` fields, one per line. A file that does not begin with a
//! delimiter line has no metadata and is all body. The grammar is given
//! by the spec functions below; the parser is verified against them.

use vstd::prelude::*;
use vstd::string::*;
use crate::library::{args_view, lemma_args_view_index, ArgModel, PromptArgument};
use crate::text::{
    chars_equal, chars_to_string, copy_range, find_char, find_char_vec, is_space, is_space_char,
    join_lines, space_p, split_lines, split_to_lines, str_to_chars, trim_if, trim_spaces,
};
use crate::types::{MetaModel, PromptError, PromptFile, PromptMetadata};

verus! {

/// A frontmatter delimiter line: exactly `---`.
pub open spec fn is_delim(line: Seq<char>) -> bool {
    line == seq!['-', '-', '-']
}

/// The index of the first delimiter line, if any.
pub open spec fn find_delim(lines: Seq<Seq<char>>) -> Option<int>
    decreases lines.len(),
{
    if lines.len() == 0 {
        None
    } else if is_delim(lines[0]) {
        Some(0)
    } else {
        match find_delim(lines.drop_first()) {
            None => None,
            Some(j) => Some(j + 1),
        }
    }
}

/// `v` with one layer of surrounding double quotes removed, if present.
pub open spec fn unquote(v: Seq<char>) -> Seq<char> {
    if v.len() >= 2 && v[0] == '"' && v.last() == '"' {
        v.subrange(1, v.len() - 1)
    } else {
        v
    }
}

/// A `key: value` line split at its first colon, both sides trimmed and
/// the value unquoted; `None` when no colon is present.
pub open spec fn split_kv(t: Seq<char>) -> Option<(Seq<char>, Seq<char>)> {
    match find_char(t, ':') {
        None => None,
        Some(i) => if 0 <= i < t.len() {
            Some((trim_if(t.take(i), space_p()), unquote(trim_if(t.skip(i + 1), space_p()))))
        } else {
            None
        },
    }
}

/// The parse state while reading frontmatter lines: title so far,
/// description so far, arguments so far, and whether an `arguments:`
/// list is open.
pub type MetaState = (Option<Seq<char>>, Option<Seq<char>>, Seq<ArgModel>, bool);

/// One frontmatter line applied to the state. `None` marks a malformed
/// line: a keyed line without a colon, a list item that does not start
/// with `name`, one outside an open `arguments:` list, or a `required`
/// value that is neither `true` nor `false`. Blank lines and comment
/// lines are skipped; unknown keys are tolerated and skipped.
pub open spec fn meta_step(st: MetaState, line: Seq<char>) -> Option<MetaState> {
    let t = trim_if(line, space_p());
    if t.len() == 0 {
        Some(st)
    } else if t[0] == '#' {
        Some(st)
    } else if t.len() >= 2 && t[0] == '-' && is_space(t[1]) {
        if !st.3 {
            None
        } else {
            match split_kv(t.skip(2)) {
                None => None,
                Some(kv) => if kv.0 == seq!['n', 'a', 'm', 'e'] {
                    Some((st.0, st.1, st.2.push((kv.1, None, false)), true))
                } else {
                    None
                },
            }
        }
    } else if line.len() > 0 && is_space(line[0]) && st.3 && st.2.len() > 0 {
        match split_kv(t) {
            None => None,
            Some(kv) => {
                let last = st.2.last();
                if kv.0 == seq!['d', 'e', 's', 'c', 'r', 'i', 'p', 't', 'i', 'o', 'n'] {
                    Some((st.0, st.1, st.2.update(st.2.len() - 1, (last.0, Some(kv.1), last.2)), true))
                } else if kv.0 == seq!['r', 'e', 'q', 'u', 'i', 'r', 'e', 'd'] {
                    if kv.1 == seq!['t', 'r', 'u', 'e'] {
                        Some((st.0, st.1, st.2.update(st.2.len() - 1, (last.0, last.1, true)), true))
                    } else if kv.1 == seq!['f', 'a', 'l', 's', 'e'] {
                        Some((st.0, st.1, st.2.update(st.2.len() - 1, (last.0, last.1, false)), true))
                    } else {
                        None
                    }
                } else {
                    Some(st)
                }
            },
        }
    } else {
        match split_kv(t) {
            None => None,
            Some(kv) => {
                if kv.0 == seq!['t', 'i', 't', 'l', 'e'] {
                    Some((Some(kv.1), st.1, st.2, false))
                } else if kv.0 == seq!['d', 'e', 's', 'c', 'r', 'i', 'p', 't', 'i', 'o', 'n'] {
                    Some((st.0, Some(kv.1), st.2, false))
                } else if kv.0 == seq!['a', 'r', 'g', 'u', 'm', 'e', 'n', 't', 's'] && kv.1.len()
                    == 0 {
                    Some((st.0, st.1, st.2, true))
                } else {
                    Some((st.0, st.1, st.2, false))
                }
            },
        }
    }
}

/// The frontmatter lines folded through `meta_step` from the front.
pub open spec fn run_meta(lines: Seq<Seq<char>>, st: MetaState) -> Option<MetaState>
    decreases lines.len(),
{
    if lines.len() == 0 {
        Some(st)
    } else {
        match meta_step(st, lines[0]) {
            None => None,
            Some(st2) => run_meta(lines.drop_first(), st2),
        }
    }
}

/// The empty parse state.
pub open spec fn init_meta() -> MetaState {
    (None, None, Seq::empty(), false)
}

/// The metadata a finished state denotes.
pub open spec fn meta_of(st: MetaState) -> MetaModel {
    (st.0, st.1, st.2)
}

/// What a content file parses to: its metadata and its body, or `None`
/// when the file is malformed. A file that does not begin with a `---`
/// line has empty metadata and is all body; one whose frontmatter never
/// closes, or holds a malformed line, is rejected.
pub open spec fn parse_file_spec(s: Seq<char>) -> Option<(MetaModel, Seq<char>)> {
    let lines = split_lines(s);
    if lines.len() == 0 || !is_delim(lines[0]) {
        Some(((None, None, Seq::empty()), s))
    } else {
        match find_delim(lines.skip(1)) {
            None => None,
            Some(k) => if 0 <= k && k + 1 < lines.len() {
                match run_meta(lines.subrange(1, k + 1), init_meta()) {
                    None => None,
                    Some(st) => Some((meta_of(st), join_lines(lines.skip(k + 2)))),
                }
            } else {
                None
            },
        }
    }
}

/// `find_delim` returns exactly the first delimiter line.
proof fn lemma_find_delim_first(lines: Seq<Seq<char>>, j: int)
    requires
        0 <= j < lines.len(),
        is_delim(lines[j]),
        forall|k: int| 0 <= k < j ==> !is_delim(lines[k]),
    ensures
        find_delim(lines) == Some(j),
    decreases j,
{
    if j > 0 {
        let t = lines.drop_first();
        assert(t[j - 1] == lines[j]);
        assert forall|k: int| 0 <= k < j - 1 implies !is_delim(t[k]) by {
            assert(t[k] == lines[k + 1]);
        }
        lemma_find_delim_first(t, j - 1);
    }
}

/// With no delimiter line, `find_delim` finds nothing.
proof fn lemma_find_delim_none(lines: Seq<Seq<char>>)
    requires
        forall|k: int| 0 <= k < lines.len() ==> !is_delim(lines[k]),
    ensures
        find_delim(lines) is None,
    decreases lines.len(),
{
    if lines.len() > 0 {
        let t = lines.drop_first();
        assert forall|k: int| 0 <= k < t.len() implies !is_delim(t[k]) by {
            assert(t[k] == lines[k + 1]);
        }
        lemma_find_delim_none(t);
    }
}

/// Joining after appending one more line appends a newline and the line.
proof fn lemma_join_push(u: Seq<Seq<char>>, x: Seq<char>)
    ensures
        join_lines(u.push(x)) == if u.len() == 0 {
            x
        } else {
            join_lines(u) + seq!['\n'] + x
        },
    decreases u.len(),
{
    let w = u.push(x);
    if u.len() == 0 {
        assert(w.len() == 1);
        assert(w[0] == x);
    } else {
        assert(w[0] == u[0]);
        assert(w.drop_first() =~= u.drop_first().push(x));
        lemma_join_push(u.drop_first(), x);
        if u.len() == 1 {
            assert(join_lines(u) == u[0]);
        }
    }
}

/// Remove one layer of surrounding double quotes, if present.
fn unquote_exec(v: &Vec<char>) -> (r: Vec<char>)
    ensures
        r@ == unquote(v@),
{
    if v.len() >= 2 && v[0] == '"' && v[v.len() - 1] == '"' {
        copy_range(v, 1, v.len() - 1)
    } else {
        copy_range(v, 0, v.len())
    }
}

/// Split a `key: value` line at its first colon.
fn split_kv_exec(t: &Vec<char>) -> (r: Option<(Vec<char>, Vec<char>)>)
    ensures
        match r {
            Some(kv) => split_kv(t@) == Some((kv.0@, kv.1@)),
            None => split_kv(t@) is None,
        },
{
    match find_char_vec(t, ':') {
        None => None,
        Some(i) => {
            let n = t.len();
            let left = copy_range(t, 0, i);
            let right = copy_range(t, i + 1, n);
            proof {
                assert(left@ =~= t@.take(i as int));
                assert(right@ =~= t@.skip(i as int + 1));
            }
            let k = trim_spaces(&left);
            let v = unquote_exec(&trim_spaces(&right));
            Some((k, v))
        },
    }
}

/// The metadata being built, plus whether an `arguments:` list is open.
struct MetaBuild {
    meta: PromptMetadata,
    in_args: bool,
}

impl MetaBuild {
    /// The parse state this value denotes.
    spec fn st(&self) -> MetaState {
        (self.meta@.0, self.meta@.1, self.meta@.2, self.in_args)
    }
}

/// Apply one frontmatter line to the state; false marks a malformed line.
fn meta_step_exec(mb: &mut MetaBuild, line: &Vec<char>) -> (ok: bool)
    ensures
        ok ==> meta_step(old(mb).st(), line@) == Some(final(mb).st()),
        !ok ==> meta_step(old(mb).st(), line@) is None,
{
    let t = trim_spaces(line);
    if t.len() == 0 {
        return true;
    }
    if t[0] == '#' {
        return true;
    }
    let kw_name: Vec<char> = vec!['n', 'a', 'm', 'e'];
    let kw_desc: Vec<char> = vec!['d', 'e', 's', 'c', 'r', 'i', 'p', 't', 'i', 'o', 'n'];
    let kw_req: Vec<char> = vec!['r', 'e', 'q', 'u', 'i', 'r', 'e', 'd'];
    let kw_args: Vec<char> = vec!['a', 'r', 'g', 'u', 'm', 'e', 'n', 't', 's'];
    let kw_title: Vec<char> = vec!['t', 'i', 't', 'l', 'e'];
    let kw_true: Vec<char> = vec!['t', 'r', 'u', 'e'];
    let kw_false: Vec<char> = vec!['f', 'a', 'l', 's', 'e'];
    proof {
        assert(kw_name@ =~= seq!['n', 'a', 'm', 'e']);
        assert(kw_desc@ =~= seq!['d', 'e', 's', 'c', 'r', 'i', 'p', 't', 'i', 'o', 'n']);
        assert(kw_req@ =~= seq!['r', 'e', 'q', 'u', 'i', 'r', 'e', 'd']);
        assert(kw_args@ =~= seq!['a', 'r', 'g', 'u', 'm', 'e', 'n', 't', 's']);
        assert(kw_title@ =~= seq!['t', 'i', 't', 'l', 'e']);
        assert(kw_true@ =~= seq!['t', 'r', 'u', 'e']);
        assert(kw_false@ =~= seq!['f', 'a', 'l', 's', 'e']);
    }
    if t.len() >= 2 && t[0] == '-' && is_space_char(t[1]) {
        if !mb.in_args {
            return false;
        }
        let rest = copy_range(&t, 2, t.len());
        proof {
            assert(rest@ =~= t@.skip(2));
        }
        match split_kv_exec(&rest) {
            None => false,
            Some((k, v)) => {
                if chars_equal(&k, &kw_name) {
                    let ghost args0 = mb.meta.arguments@;
                    let arg = PromptArgument {
                        name: chars_to_string(&v),
                        description: None,
                        required: false,
                    };
                    let ghost argm = arg@;
                    mb.meta.arguments.push(arg);
                    proof {
                        assert(mb.meta.arguments@.drop_last() =~= args0);
                        assert(args_view(mb.meta.arguments@) == args_view(args0).push(argm));
                    }
                    true
                } else {
                    false
                }
            },
        }
    } else if line.len() > 0 && is_space_char(line[0]) && mb.in_args && mb.meta.arguments.len()
        > 0 {
        match split_kv_exec(&t) {
            None => false,
            Some((k, v)) => {
                if chars_equal(&k, &kw_desc) {
                    update_last_arg(&mut mb.meta.arguments, Some(chars_to_string(&v)), None);
                    true
                } else if chars_equal(&k, &kw_req) {
                    if chars_equal(&v, &kw_true) {
                        update_last_arg(&mut mb.meta.arguments, None, Some(true));
                        true
                    } else if chars_equal(&v, &kw_false) {
                        update_last_arg(&mut mb.meta.arguments, None, Some(false));
                        true
                    } else {
                        false
                    }
                } else {
                    true
                }
            },
        }
    } else {
        match split_kv_exec(&t) {
            None => false,
            Some((k, v)) => {
                if chars_equal(&k, &kw_title) {
                    mb.meta.title = Some(chars_to_string(&v));
                    mb.in_args = false;
                } else if chars_equal(&k, &kw_desc) {
                    mb.meta.description = Some(chars_to_string(&v));
                    mb.in_args = false;
                } else if chars_equal(&k, &kw_args) && v.len() == 0 {
                    mb.in_args = true;
                } else {
                    mb.in_args = false;
                }
                true
            },
        }
    }
}

/// Replace fields of the last argument: its description when `desc` is
/// given, its required flag when `req` is given.
fn update_last_arg(args: &mut Vec<PromptArgument>, desc: Option<String>, req: Option<bool>)
    requires
        old(args)@.len() > 0,
    ensures
        ({
            let o = old(args)@;
            let last = args_view(o).last();
            let updated = (
                last.0,
                if desc is Some {
                    Some(desc->0@)
                } else {
                    last.1
                },
                if req is Some {
                    req->0
                } else {
                    last.2
                },
            );
            args_view(final(args)@) == args_view(o).update(args_view(o).len() - 1, updated)
        }),
{
    let ghost o = args@;
    let mut a = match args.pop() {
        Some(a) => a,
        None => {
            proof {
                assert(false);
            }
            PromptArgument { name: String::new(), description: None, required: false }
        },
    };
    let ghost lastm = a@;
    match desc {
        Some(d) => {
            a.description = Some(d);
        },
        None => {},
    }
    match req {
        Some(r) => {
            a.required = r;
        },
        None => {},
    }
    let ghost newm = a@;
    args.push(a);
    proof {
        assert(args@ =~= o.update(o.len() - 1, args@.last()));
        lemma_args_view_index(o);
        lemma_args_view_index(args@);
        assert(args_view(o).last() == lastm);
        assert forall|i: int| 0 <= i < args_view(args@).len() implies args_view(args@)[i]
            == args_view(o).update(o.len() - 1, newm)[i] by {
            if i < o.len() - 1 {
                assert(args@[i] == o[i]);
            }
        }
        assert(args_view(args@) =~= args_view(o).update(o.len() - 1, newm));
    }
}

/// Parse a content file's characters into metadata and body.
pub fn parse_content(v: &Vec<char>) -> (r: Option<(PromptMetadata, Vec<char>)>)
    ensures
        match r {
            Some(p) => parse_file_spec(v@) == Some((p.0@, p.1@)),
            None => parse_file_spec(v@) is None,
        },
{
    let lines = split_to_lines(v);
    let ghost lv = lines@.map_values(|l: Vec<char>| l@);
    let delim: Vec<char> = vec!['-', '-', '-'];
    proof {
        assert(delim@ =~= seq!['-', '-', '-']);
    }
    let n = lines.len();
    proof {
        if n > 0 {
            assert(lv[0] == lines@[0]@);
        }
    }
    if n == 0 || !chars_equal(&lines[0], &delim) {
        let meta = PromptMetadata { title: None, description: None, arguments: Vec::new() };
        let body = copy_range(v, 0, v.len());
        proof {
            assert(body@ =~= v@);
            assert(args_view(Seq::<PromptArgument>::empty()) =~= Seq::<ArgModel>::empty());
        }
        return Some((meta, body));
    }
    // find the closing delimiter line
    let mut k: usize = 1;
    let mut found = false;
    while k < n && !found
        invariant
            1 <= k <= n,
            n == lv.len(),
            n == lines@.len(),
            lv == lines@.map_values(|l: Vec<char>| l@),
            delim@ == seq!['-', '-', '-'],
            found ==> k < n && is_delim(lv[k as int]),
            forall|j: int| 1 <= j < k ==> !is_delim(lv[j]),
        decreases n - k, (if found { 0int } else { 1int }),
    {
        proof {
            assert(lines@.map_values(|l: Vec<char>| l@)[k as int] == lines@[k as int]@);
            assert(lv[k as int] == lines@[k as int]@);
        }
        if chars_equal(&lines[k], &delim) {
            found = true;
        } else {
            k = k + 1;
        }
    }
    let ghost tail = lv.skip(1);
    proof {
        assert(forall|j: int| 0 <= j < tail.len() ==> tail[j] == #[trigger] lv[j + 1]);
    }
    if !found {
        proof {
            assert forall|j: int| 0 <= j < tail.len() implies !is_delim(tail[j]) by {
                assert(tail[j] == lv[j + 1]);
            }
            lemma_find_delim_none(tail);
        }
        return None;
    }
    proof {
        assert(tail[k - 1] == lv[k as int]);
        assert forall|j: int| 0 <= j < k - 1 implies !is_delim(tail[j]) by {
            assert(tail[j] == lv[j + 1]);
        }
        lemma_find_delim_first(tail, k - 1);
    }
    // fold the frontmatter lines into the metadata
    let mut mb = MetaBuild {
        meta: PromptMetadata { title: None, description: None, arguments: Vec::new() },
        in_args: false,
    };
    proof {
        assert(args_view(Seq::<PromptArgument>::empty()) =~= Seq::<ArgModel>::empty());
        assert(mb.st() == init_meta());
    }
    let mut i: usize = 1;
    while i < k
        invariant
            1 <= i <= k < n,
            n == lv.len(),
            n == lines@.len(),
            lv == lines@.map_values(|l: Vec<char>| l@),
            lv == split_lines(v@),
            is_delim(lv[0]),
            find_delim(lv.skip(1)) == Some(k - 1),
            run_meta(lv.subrange(1, k as int), init_meta()) == run_meta(
                lv.subrange(i as int, k as int),
                mb.st(),
            ),
        decreases k - i,
    {
        let ghost seg = lv.subrange(i as int, k as int);
        proof {
            assert(lines@.map_values(|l: Vec<char>| l@)[i as int] == lines@[i as int]@);
            assert(seg[0] == lv[i as int]);
            assert(seg.drop_first() =~= lv.subrange(i as int + 1, k as int));
        }
        let ok = meta_step_exec(&mut mb, &lines[i]);
        if !ok {
            return None;
        }
        i = i + 1;
    }
    proof {
        assert(lv.subrange(k as int, k as int) =~= Seq::<Seq<char>>::empty());
    }
    // the body: every line after the closing delimiter, joined back
    let mut body: Vec<char> = Vec::new();
    let mut j: usize = k + 1;
    proof {
        assert(lv.subrange(k as int + 1, k as int + 1) =~= Seq::<Seq<char>>::empty());
    }
    while j < n
        invariant
            k + 1 <= j <= n,
            n == lv.len(),
            n == lines@.len(),
            lv == lines@.map_values(|l: Vec<char>| l@),
            body@ == join_lines(lv.subrange(k as int + 1, j as int)),
        decreases n - j,
    {
        let ghost upto = lv.subrange(k as int + 1, j as int);
        if j > k + 1 {
            body.push('\n');
        }
        crate::value::append_chars(&mut body, &lines[j]);
        proof {
            lemma_join_push(upto, lv[j as int]);
            assert(lv.subrange(k as int + 1, j as int + 1) =~= upto.push(lv[j as int]));
            if upto.len() > 0 {
                assert(body@ =~= join_lines(upto) + seq!['\n'] + lv[j as int]);
            }
        }
        j = j + 1;
    }
    proof {
        assert(lv.subrange(k as int + 1, n as int) =~= lv.skip(k as int + 1));
    }
    Some((mb.meta, body))
}

/// Parse a content file into a loaded prompt. `name` is the prompt's
/// identifier (the file stem), `path` the file's location as text,
/// `text` its full content, `modified` its last-modified stamp.
pub fn parse_prompt_text(name: &str, path: &str, text: &str, modified: u64) -> (r: Result<
    PromptFile,
    PromptError,
>)
    ensures
        match r {
            Ok(f) => parse_file_spec(text@) == Some((f.metadata@, f.content@)) && f.name@ == name@
                && f.path@ == path@ && f.modified == modified,
            Err(e) => parse_file_spec(text@) is None && (e matches
                PromptError::InvalidFrontmatter { file } && file@ == name@),
        },
{
    let v = str_to_chars(text);
    match parse_content(&v) {
        Some((metadata, body)) => Ok(
            PromptFile {
                name: String::from_str(name),
                path: String::from_str(path),
                metadata,
                content: chars_to_string(&body),
                modified,
            },
        ),
        None => Err(PromptError::InvalidFrontmatter { file: String::from_str(name) }),
    }
}

} // verus!
