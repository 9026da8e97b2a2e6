//! The template language and its renderer.
//!
//! A template is literal text with two constructs: `{{ name }}`
//! interpolates the named argument's textual form (or nothing when the
//! name is unbound), and `{% if name %} ... {% endif %}` includes its
//! body only when the named argument is bound and non-empty. Undefined
//! names never fail a render; malformed syntax (an unclosed tag, an
//! unknown directive, an unbalanced conditional) fails the whole call.
//!
//! The grammar and its meaning are given by the spec functions below;
//! the executable renderer is verified to agree with them exactly.

use vstd::prelude::*;
use vstd::string::*;
use crate::text::{
    chars_equal, chars_to_string, copy_range, is_space, is_space_char, space_p, str_to_chars,
    trim_if, trim_spaces,
};
use crate::types::PromptError;
use crate::value::{coerce, truthy_value, ArgValue, PromptArgs, Value, append_chars};

verus! {

/// A lexical token of the template language.
pub enum Tok {
    /// One character of literal text.
    Lit(char),
    /// `{{ name }}`.
    Var(Seq<char>),
    /// `{% if name %}`.
    If(Seq<char>),
    /// `{% endif %}`.
    EndIf,
}

/// An executable token; its view is [`Tok`].
pub enum TokE {
    Lit(char),
    Var(String),
    If(String),
    EndIf,
}

impl View for TokE {
    type V = Tok;

    open spec fn view(&self) -> Tok {
        match self {
            TokE::Lit(c) => Tok::Lit(*c),
            TokE::Var(n) => Tok::Var(n@),
            TokE::If(n) => Tok::If(n@),
            TokE::EndIf => Tok::EndIf,
        }
    }
}

/// The position of the first occurrence of the two-character closer
/// `ab` in `s`, if any.
pub open spec fn find_close(s: Seq<char>, a: char, b: char) -> Option<int>
    decreases s.len(),
{
    if s.len() < 2 {
        None
    } else if s[0] == a && s[1] == b {
        Some(0)
    } else {
        match find_close(s.drop_first(), a, b) {
            None => None,
            Some(j) => Some(j + 1),
        }
    }
}

/// `find_close` returns exactly the first in-bounds match.
pub proof fn lemma_find_close_first(s: Seq<char>, a: char, b: char, j: int)
    requires
        0 <= j,
        j + 2 <= s.len(),
        s[j] == a,
        s[j + 1] == b,
        forall|k: int| 0 <= k < j ==> !(#[trigger] s[k] == a && s[k + 1] == b),
    ensures
        find_close(s, a, b) == Some(j),
    decreases j,
{
    if j == 0 {
    } else {
        let t = s.drop_first();
        assert(t[j - 1] == s[j] && t[j] == s[j + 1]);
        assert forall|k: int| 0 <= k < j - 1 implies !(#[trigger] t[k] == a && t[k + 1] == b) by {
            assert(t[k] == s[k + 1] && t[k + 1] == s[k + 2]);
        }
        lemma_find_close_first(t, a, b, j - 1);
    }
}

/// With no in-bounds match, `find_close` finds nothing.
pub proof fn lemma_find_close_none(s: Seq<char>, a: char, b: char)
    requires
        forall|k: int|
            0 <= k && k + 2 <= s.len() ==> !(#[trigger] s[k] == a && s[k + 1] == b),
    ensures
        find_close(s, a, b) is None,
    decreases s.len(),
{
    if s.len() >= 2 {
        assert(!(s[0] == a && s[1] == b));
        let t = s.drop_first();
        assert forall|k: int| 0 <= k && k + 2 <= t.len() implies !(#[trigger] t[k] == a && t[k + 1]
            == b) by {
            assert(t[k] == s[k + 1] && t[k + 1] == s[k + 2]);
        }
        lemma_find_close_none(t, a, b);
    }
}

/// A usable argument name: non-empty, with no whitespace inside.
pub open spec fn valid_name(s: Seq<char>) -> bool {
    s.len() > 0 && forall|i: int| 0 <= i < s.len() ==> !is_space(s[i])
}

/// The token a directive's trimmed content denotes, if it is known.
pub open spec fn directive_of(inner: Seq<char>) -> Option<Tok> {
    if inner == seq!['e', 'n', 'd', 'i', 'f'] {
        Some(Tok::EndIf)
    } else if inner.len() >= 3 && inner[0] == 'i' && inner[1] == 'f' && is_space(inner[2]) {
        let name = trim_if(inner.skip(2), space_p());
        if valid_name(name) {
            Some(Tok::If(name))
        } else {
            None
        }
    } else {
        None
    }
}

/// Whether a variable tag opens at the head of `s`.
pub open spec fn opens_var(s: Seq<char>) -> bool {
    s.len() >= 2 && s[0] == '{' && s[1] == '{'
}

/// Whether a directive tag opens at the head of `s`.
pub open spec fn opens_dir(s: Seq<char>) -> bool {
    s.len() >= 2 && s[0] == '{' && s[1] == '%'
}

/// The token sequence of a template, or `None` on a syntax defect: an
/// opened tag that never closes, an empty or whitespace-broken name, or
/// a directive that is neither `if` nor `endif`.
pub open spec fn spec_tokenize(s: Seq<char>) -> Option<Seq<Tok>>
    decreases s.len(),
{
    if s.len() == 0 {
        Some(Seq::empty())
    } else if opens_var(s) {
        match find_close(s.skip(2), '}', '}') {
            None => None,
            Some(j) => if 0 <= j && 4 + j <= s.len() {
                let name = trim_if(s.subrange(2, 2 + j), space_p());
                if valid_name(name) {
                    match spec_tokenize(s.skip(4 + j)) {
                        None => None,
                        Some(ts) => Some(seq![Tok::Var(name)] + ts),
                    }
                } else {
                    None
                }
            } else {
                None
            },
        }
    } else if opens_dir(s) {
        match find_close(s.skip(2), '%', '}') {
            None => None,
            Some(j) => if 0 <= j && 4 + j <= s.len() {
                match directive_of(trim_if(s.subrange(2, 2 + j), space_p())) {
                    None => None,
                    Some(t) => match spec_tokenize(s.skip(4 + j)) {
                        None => None,
                        Some(ts) => Some(seq![t] + ts),
                    },
                }
            } else {
                None
            },
        }
    } else {
        match spec_tokenize(s.drop_first()) {
            None => None,
            Some(ts) => Some(seq![Tok::Lit(s[0])] + ts),
        }
    }
}

/// The text a variable interpolates to: the bound value's textual
/// form, or nothing when the name is unbound.
pub open spec fn lookup_text(env: Map<Seq<char>, Value>, n: Seq<char>) -> Seq<char> {
    if env.contains_key(n) {
        coerce(env[n])
    } else {
        Seq::empty()
    }
}

/// Whether a conditional on `n` is taken: the name is bound to a
/// truthy value. An unbound name is simply false, never an error.
pub open spec fn truthy(env: Map<Seq<char>, Value>, n: Seq<char>) -> bool {
    env.contains_key(n) && truthy_value(env[n])
}

/// Whether every enclosing conditional is currently taken.
pub open spec fn all_true(st: Seq<bool>) -> bool {
    forall|i: int| 0 <= i < st.len() ==> st[i]
}

/// One left-to-right pass over the tokens. `st` holds the truth value
/// of each open conditional, innermost last; `out` is the text emitted
/// so far. `None` marks an unbalanced conditional.
pub open spec fn run(
    toks: Seq<Tok>,
    env: Map<Seq<char>, Value>,
    st: Seq<bool>,
    out: Seq<char>,
) -> Option<Seq<char>>
    decreases toks.len(),
{
    if toks.len() == 0 {
        if st.len() == 0 {
            Some(out)
        } else {
            None
        }
    } else {
        let rest = toks.drop_first();
        match toks[0] {
            Tok::Lit(c) => run(rest, env, st, if all_true(st) {
                out.push(c)
            } else {
                out
            }),
            Tok::Var(n) => run(rest, env, st, if all_true(st) {
                out + lookup_text(env, n)
            } else {
                out
            }),
            Tok::If(n) => run(rest, env, st.push(truthy(env, n)), out),
            Tok::EndIf => if st.len() == 0 {
                None
            } else {
                run(rest, env, st.drop_last(), out)
            },
        }
    }
}

/// What a token sequence renders to under `env`.
pub open spec fn render_toks(toks: Seq<Tok>, env: Map<Seq<char>, Value>) -> Option<Seq<char>> {
    run(toks, env, Seq::empty(), Seq::empty())
}

/// What a template renders to under `env`: tokenize, then run.
/// `None` marks a template syntax defect.
pub open spec fn render_spec(t: Seq<char>, env: Map<Seq<char>, Value>) -> Option<Seq<char>> {
    match spec_tokenize(t) {
        None => None,
        Some(ts) => render_toks(ts, env),
    }
}

/// Scan `v` for the first `ab` closer at or after `start`.
fn find_double(v: &Vec<char>, start: usize, a: char, b: char) -> (r: Option<usize>)
    requires
        start <= v@.len(),
    ensures
        match r {
            Some(j) => start <= j && j + 2 <= v@.len() && find_close(v@.skip(start as int), a, b)
                == Some(j - start),
            None => find_close(v@.skip(start as int), a, b) is None,
        },
{
    let n = v.len();
    let mut j = start;
    while n - j > 1
        invariant
            start <= j <= n,
            n == v@.len(),
            forall|k: int| start <= k < j ==> !(#[trigger] v@[k] == a && v@[k + 1] == b),
        decreases n - j,
    {
        if v[j] == a && v[j + 1] == b {
            proof {
                let s = v@.skip(start as int);
                assert(s[j - start] == v@[j as int]);
                assert(s[j - start + 1] == v@[j + 1]);
                assert forall|k: int| 0 <= k < j - start implies !(#[trigger] s[k] == a && s[k + 1]
                    == b) by {
                    assert(s[k] == v@[k + start]);
                    assert(s[k + 1] == v@[k + start + 1]);
                }
                lemma_find_close_first(s, a, b, j - start);
            }
            return Some(j);
        }
        j = j + 1;
    }
    proof {
        let s = v@.skip(start as int);
        assert forall|k: int| 0 <= k && k + 2 <= s.len() implies !(#[trigger] s[k] == a && s[k + 1]
            == b) by {
            assert(s[k] == v@[k + start]);
            assert(s[k + 1] == v@[k + start + 1]);
        }
        lemma_find_close_none(s, a, b);
    }
    None
}

/// Whether `v` is a usable argument name.
fn check_valid_name(v: &Vec<char>) -> (r: bool)
    ensures
        r == valid_name(v@),
{
    if v.len() == 0 {
        return false;
    }
    let mut i: usize = 0;
    while i < v.len()
        invariant
            i <= v@.len(),
            forall|k: int| 0 <= k < i ==> !is_space(v@[k]),
        decreases v@.len() - i,
    {
        if is_space_char(v[i]) {
            return false;
        }
        i = i + 1;
    }
    true
}

/// The token a trimmed directive content denotes, if it is known.
fn classify_directive(inner: &Vec<char>) -> (r: Option<TokE>)
    ensures
        match r {
            Some(t) => directive_of(inner@) == Some(t@),
            None => directive_of(inner@) is None,
        },
{
    let endif_v: Vec<char> = vec!['e', 'n', 'd', 'i', 'f'];
    proof {
        assert(endif_v@ =~= seq!['e', 'n', 'd', 'i', 'f']);
    }
    if chars_equal(inner, &endif_v) {
        return Some(TokE::EndIf);
    }
    if inner.len() >= 3 && inner[0] == 'i' && inner[1] == 'f' && is_space_char(inner[2]) {
        let tail = copy_range(inner, 2, inner.len());
        proof {
            assert(tail@ =~= inner@.skip(2));
        }
        let name = trim_spaces(&tail);
        if check_valid_name(&name) {
            return Some(TokE::If(chars_to_string(&name)));
        } else {
            return None;
        }
    }
    None
}

/// Prefix a token sequence onto a tokenization outcome.
pub open spec fn opt_prepend(pre: Seq<Tok>, rest: Option<Seq<Tok>>) -> Option<Seq<Tok>> {
    match rest {
        None => None,
        Some(ts) => Some(pre + ts),
    }
}

/// Moving one freshly read token from the remainder onto the prefix
/// leaves the glued outcome unchanged.
proof fn lemma_opt_prepend_step(pre: Seq<Tok>, t: Tok, rest: Option<Seq<Tok>>)
    ensures
        opt_prepend(
            pre,
            match rest {
                None => None,
                Some(ts) => Some(seq![t] + ts),
            },
        ) == opt_prepend(pre.push(t), rest),
{
    match rest {
        None => {},
        Some(ts) => {
            assert(pre + (seq![t] + ts) =~= pre.push(t) + ts);
        },
    }
}

/// Push a token, tracking the viewed token sequence.
fn push_tok(toks: &mut Vec<TokE>, te: TokE)
    ensures
        final(toks)@.map_values(|t: TokE| t@) == old(toks)@.map_values(|t: TokE| t@).push(te@),
{
    let ghost tev = te@;
    let ghost before = toks@;
    toks.push(te);
    proof {
        let f = |t: TokE| t@;
        assert(toks@ == before.push(te));
        assert forall|k: int| 0 <= k < toks@.len() implies #[trigger] toks@.map_values(f)[k]
            == before.map_values(f).push(tev)[k] by {
            if k < before.len() {
                assert(toks@[k] == before[k]);
            }
        }
        assert(toks@.map_values(f) =~= before.map_values(f).push(tev));
    }
}

/// Tokenize a template; `None` marks a syntax defect.
fn tokenize(v: &Vec<char>) -> (r: Option<Vec<TokE>>)
    ensures
        match r {
            Some(ts) => spec_tokenize(v@) == Some(ts@.map_values(|t: TokE| t@)),
            None => spec_tokenize(v@) is None,
        },
{
    let mut toks: Vec<TokE> = Vec::new();
    let mut i: usize = 0;
    proof {
        assert(v@.skip(0) =~= v@);
        assert(toks@.map_values(|t: TokE| t@) =~= Seq::<Tok>::empty());
        match spec_tokenize(v@) {
            None => {},
            Some(ts) => {
                assert(Seq::<Tok>::empty() + ts =~= ts);
            },
        }
    }
    while i < v.len()
        invariant
            i <= v@.len(),
            spec_tokenize(v@) == opt_prepend(
                toks@.map_values(|t: TokE| t@),
                spec_tokenize(v@.skip(i as int)),
            ),
        decreases v@.len() - i,
    {
        let ghost s = v@.skip(i as int);
        let ghost pre = toks@.map_values(|t: TokE| t@);
        proof {
            assert(s[0] == v@[i as int]);
            if i + 1 < v@.len() {
                assert(s[1] == v@[i as int + 1]);
            }
        }
        let c = v[i];
        if c == '{' && i + 1 < v.len() && (v[i + 1] == '{' || v[i + 1] == '%') {
            let isvar = v[i + 1] == '{';
            let ca = if isvar { '}' } else { '%' };
            let cb = '}';
            proof {
                assert(s.skip(2) =~= v@.skip(i as int + 2));
                assert(isvar ==> opens_var(s));
                assert(!isvar ==> opens_dir(s) && !opens_var(s));
            }
            match find_double(v, i + 2, ca, cb) {
                None => {
                    proof {
                        assert(spec_tokenize(s) is None);
                    }
                    return None;
                },
                Some(jabs) => {
                    let ghost jrel = jabs - (i + 2);
                    let inner_raw = copy_range(v, i + 2, jabs);
                    let inner = trim_spaces(&inner_raw);
                    proof {
                        assert(inner_raw@ =~= s.subrange(2, 2 + jrel));
                        assert(s.skip(4 + jrel) =~= v@.skip(jabs + 2));
                    }
                    if isvar {
                        if check_valid_name(&inner) {
                            push_tok(&mut toks, TokE::Var(chars_to_string(&inner)));
                            proof {
                                let t = Tok::Var(inner@);
                                assert(spec_tokenize(s) == (match spec_tokenize(
                                    v@.skip(jabs + 2),
                                ) {
                                    None => None::<Seq<Tok>>,
                                    Some(ts) => Some(seq![t] + ts),
                                }));
                                lemma_opt_prepend_step(pre, t, spec_tokenize(v@.skip(jabs + 2)));
                            }
                            i = jabs + 2;
                        } else {
                            proof {
                                assert(spec_tokenize(s) is None);
                            }
                            return None;
                        }
                    } else {
                        match classify_directive(&inner) {
                            Some(te) => {
                                let ghost t = te@;
                                push_tok(&mut toks, te);
                                proof {
                                    assert(spec_tokenize(s) == (match spec_tokenize(
                                        v@.skip(jabs + 2),
                                    ) {
                                        None => None::<Seq<Tok>>,
                                        Some(ts) => Some(seq![t] + ts),
                                    }));
                                    lemma_opt_prepend_step(pre, t, spec_tokenize(v@.skip(jabs + 2)));
                                }
                                i = jabs + 2;
                            },
                            None => {
                                proof {
                                    assert(spec_tokenize(s) is None);
                                }
                                return None;
                            },
                        }
                    }
                },
            }
        } else {
            push_tok(&mut toks, TokE::Lit(c));
            proof {
                assert(!opens_var(s) && !opens_dir(s));
                assert(s.drop_first() =~= v@.skip(i as int + 1));
                let t = Tok::Lit(c);
                assert(spec_tokenize(s) == (match spec_tokenize(v@.skip(i as int + 1)) {
                    None => None::<Seq<Tok>>,
                    Some(ts) => Some(seq![t] + ts),
                }));
                lemma_opt_prepend_step(pre, t, spec_tokenize(v@.skip(i as int + 1)));
            }
            i = i + 1;
        }
    }
    proof {
        assert(v@.skip(v@.len() as int) =~= Seq::<char>::empty());
        assert(spec_tokenize(v@.skip(i as int)) == Some(Seq::<Tok>::empty()));
        assert(toks@.map_values(|t: TokE| t@) + Seq::<Tok>::empty() =~= toks@.map_values(
            |t: TokE| t@,
        ));
    }
    Some(toks)
}

/// The number of suppressing (false) entries on the conditional stack.
pub open spec fn num_false(st: Seq<bool>) -> nat
    decreases st.len(),
{
    if st.len() == 0 {
        0
    } else {
        num_false(st.drop_last()) + if st.last() {
            0nat
        } else {
            1nat
        }
    }
}

/// The stack is all-true exactly when it has no false entry; the count
/// never exceeds the stack's depth.
proof fn lemma_num_false(st: Seq<bool>)
    ensures
        (num_false(st) == 0) <==> all_true(st),
        num_false(st) <= st.len(),
    decreases st.len(),
{
    if st.len() > 0 {
        lemma_num_false(st.drop_last());
        if num_false(st) == 0 {
            assert forall|k: int| 0 <= k < st.len() implies st[k] by {
                if k < st.len() - 1 {
                    assert(st.drop_last()[k]);
                }
            }
        }
        if all_true(st) {
            assert(st.last());
            assert(all_true(st.drop_last()));
        }
    }
}

/// Render a token sequence; `None` marks an unbalanced conditional.
fn render_tokens(toks: &Vec<TokE>, args: &PromptArgs) -> (r: Option<Vec<char>>)
    ensures
        match r {
            Some(out) => render_toks(toks@.map_values(|t: TokE| t@), args@) == Some(out@),
            None => render_toks(toks@.map_values(|t: TokE| t@), args@) is None,
        },
{
    let ghost tv = toks@.map_values(|t: TokE| t@);
    let mut out: Vec<char> = Vec::new();
    let mut stack: Vec<bool> = Vec::new();
    let mut falses: usize = 0;
    let mut i: usize = 0;
    proof {
        assert(tv.skip(0) =~= tv);
        assert(stack@ =~= Seq::<bool>::empty());
        assert(out@ =~= Seq::<char>::empty());
    }
    while i < toks.len()
        invariant
            i <= toks@.len(),
            tv == toks@.map_values(|t: TokE| t@),
            stack@.len() <= i,
            falses as int == num_false(stack@),
            run(tv.skip(i as int), args@, stack@, out@) == run(
                tv,
                args@,
                Seq::empty(),
                Seq::empty(),
            ),
        decreases toks@.len() - i,
    {
        let ghost s = tv.skip(i as int);
        proof {
            assert(s.drop_first() =~= tv.skip(i as int + 1));
            assert(s[0] == tv[i as int]);
            lemma_num_false(stack@);
        }
        let active = falses == 0;
        match &toks[i] {
            TokE::Lit(c) => {
                if active {
                    out.push(*c);
                }
            },
            TokE::Var(n) => {
                if active {
                    match args.get(n.as_str()) {
                        Some(v) => {
                            let txt = v.to_text();
                            append_chars(&mut out, &txt);
                        },
                        None => {
                            proof {
                                assert(out@ + lookup_text(args@, n@) =~= out@);
                            }
                        },
                    }
                }
            },
            TokE::If(n) => {
                let taken = match args.get(n.as_str()) {
                    Some(v) => v.is_truthy(),
                    None => false,
                };
                let ghost st0 = stack@;
                stack.push(taken);
                proof {
                    assert(stack@.drop_last() =~= st0);
                    assert(num_false(stack@) == num_false(st0) + if taken {
                        0nat
                    } else {
                        1nat
                    });
                }
                if !taken {
                    falses = falses + 1;
                }
            },
            TokE::EndIf => {
                if stack.len() == 0 {
                    return None;
                }
                let ghost st0 = stack@;
                let b = match stack.pop() {
                    Some(b) => b,
                    None => false,
                };
                proof {
                    assert(stack@ == st0.drop_last());
                    assert(num_false(st0) == num_false(stack@) + if b {
                        0nat
                    } else {
                        1nat
                    });
                }
                if !b {
                    falses = falses - 1;
                }
            },
        }
        i = i + 1;
    }
    proof {
        assert(tv.skip(tv.len() as int) =~= Seq::<Tok>::empty());
        lemma_num_false(stack@);
    }
    if stack.len() == 0 {
        Some(out)
    } else {
        None
    }
}

/// Render a template given as characters.
fn render_chars(template: &Vec<char>, args: &PromptArgs) -> (r: Option<Vec<char>>)
    ensures
        match r {
            Some(out) => render_spec(template@, args@) == Some(out@),
            None => render_spec(template@, args@) is None,
        },
{
    match tokenize(template) {
        None => None,
        Some(toks) => render_tokens(&toks, args),
    }
}

/// Whether a template holds no directive at all: no `{{` and no `{%`
/// anywhere.
pub open spec fn no_directives(t: Seq<char>) -> bool {
    forall|i: int|
        0 <= i && i + 2 <= t.len() ==> !(#[trigger] t[i] == '{' && (t[i + 1] == '{' || t[i + 1]
            == '%'))
}

/// One character as a literal token.
pub open spec fn lit_tok(c: char) -> Tok {
    Tok::Lit(c)
}

/// Each character as one literal token.
pub open spec fn all_lits(t: Seq<char>) -> Seq<Tok>
    decreases t.len(),
{
    if t.len() == 0 {
        Seq::empty()
    } else {
        seq![lit_tok(t[0])] + all_lits(t.drop_first())
    }
}

/// A directive-free template tokenizes to its characters.
proof fn lemma_tokenize_literals(t: Seq<char>)
    requires
        no_directives(t),
    ensures
        spec_tokenize(t) == Some(all_lits(t)),
    decreases t.len(),
{
    if t.len() == 0 {
    } else {
        if t.len() >= 2 {
            assert(!(t[0] == '{' && (t[1] == '{' || t[1] == '%')));
        }
        assert(!opens_var(t) && !opens_dir(t));
        let r = t.drop_first();
        assert forall|i: int| 0 <= i && i + 2 <= r.len() implies !(#[trigger] r[i] == '{' && (r[i
            + 1] == '{' || r[i + 1] == '%')) by {
            assert(r[i] == t[i + 1] && r[i + 1] == t[i + 2]);
        }
        lemma_tokenize_literals(r);
        assert(seq![Tok::Lit(t[0])] =~= seq![lit_tok(t[0])]);
    }
}

/// Literal tokens under an empty conditional stack emit themselves.
proof fn lemma_run_literals(u: Seq<char>, env: Map<Seq<char>, Value>, out: Seq<char>)
    ensures
        run(all_lits(u), env, Seq::empty(), out) == Some(out + u),
    decreases u.len(),
{
    if u.len() == 0 {
        assert(out + u =~= out);
    } else {
        let c0 = u[0];
        let ls = all_lits(u);
        assert(ls == seq![lit_tok(c0)] + all_lits(u.drop_first()));
        assert(ls[0] == lit_tok(c0));
        assert(ls.drop_first() =~= all_lits(u.drop_first()));
        assert(all_true(Seq::<bool>::empty()));
        lemma_run_literals(u.drop_first(), env, out.push(c0));
        assert(out.push(c0) + u.drop_first() =~= out + u);
    }
}

/// A template with no directives renders to itself, whatever the
/// arguments: literal pass-through.
pub proof fn lemma_literal_passthrough(t: Seq<char>, env: Map<Seq<char>, Value>)
    requires
        no_directives(t),
    ensures
        render_spec(t, env) == Some(t),
{
    lemma_tokenize_literals(t);
    lemma_run_literals(t, env, Seq::empty());
    assert(Seq::<char>::empty() + t =~= t);
}

/// The first declared argument that is required but not supplied, in
/// declaration order, if any.
pub open spec fn first_missing(
    decl: Seq<crate::library::ArgModel>,
    env: Map<Seq<char>, Value>,
) -> Option<Seq<char>>
    decreases decl.len(),
{
    if decl.len() == 0 {
        None
    } else if decl[0].2 && !env.contains_key(decl[0].0) {
        Some(decl[0].0)
    } else {
        first_missing(decl.drop_first(), env)
    }
}

/// No required argument is missing exactly when every declared
/// argument marked required is supplied: validation succeeds if and
/// only if the caller covered the declaration.
pub proof fn lemma_first_missing_none(
    decl: Seq<crate::library::ArgModel>,
    env: Map<Seq<char>, Value>,
)
    ensures
        first_missing(decl, env) is None <==> (forall|i: int|
            0 <= i < decl.len() ==> ((#[trigger] decl[i]).2 ==> env.contains_key(decl[i].0))),
    decreases decl.len(),
{
    if decl.len() > 0 {
        if decl[0].2 && !env.contains_key(decl[0].0) {
        } else {
            let t = decl.drop_first();
            lemma_first_missing_none(t, env);
            assert(forall|i: int| 0 <= i < t.len() ==> t[i] == #[trigger] decl[i + 1]);
            if first_missing(decl, env) is None {
                assert forall|i: int| 0 <= i < decl.len() implies ((#[trigger] decl[i]).2
                    ==> env.contains_key(decl[i].0)) by {
                    if i > 0 {
                        assert(t[i - 1] == decl[i]);
                    }
                }
            }
            if forall|i: int|
                0 <= i < decl.len() ==> ((#[trigger] decl[i]).2 ==> env.contains_key(decl[i].0)) {
                assert forall|i: int| 0 <= i < t.len() implies ((#[trigger] t[i]).2
                    ==> env.contains_key(t[i].0)) by {
                    assert(t[i] == decl[i + 1]);
                }
            }
        }
    }
}

/// The first declared argument that is required but not supplied.
pub fn first_missing_exec(
    decl: &Vec<crate::library::PromptArgument>,
    supplied: &PromptArgs,
) -> (r: Option<String>)
    ensures
        match r {
            Some(n) => first_missing(crate::library::args_view(decl@), supplied@) == Some(n@),
            None => first_missing(crate::library::args_view(decl@), supplied@) is None,
        },
{
    let ghost av = crate::library::args_view(decl@);
    proof {
        crate::library::lemma_args_view_index(decl@);
        assert(av.skip(0) =~= av);
    }
    let mut i: usize = 0;
    while i < decl.len()
        invariant
            i <= decl@.len(),
            av == crate::library::args_view(decl@),
            av.len() == decl@.len(),
            forall|k: int| 0 <= k < decl@.len() ==> av[k] == decl@[k]@,
            first_missing(av, supplied@) == first_missing(av.skip(i as int), supplied@),
        decreases decl@.len() - i,
    {
        let ghost seg = av.skip(i as int);
        proof {
            assert(seg[0] == av[i as int]);
            assert(seg.drop_first() =~= av.skip(i as int + 1));
        }
        let a = &decl[i];
        if a.required && !supplied.contains_key(a.name.as_str()) {
            return Some(a.name.clone());
        }
        i = i + 1;
    }
    proof {
        assert(av.skip(av.len() as int) =~= Seq::<crate::library::ArgModel>::empty());
    }
    None
}

/// Validate required arguments against the declaration, then render.
/// Fails with the first missing required argument, in declaration
/// order, before it ever looks at the template; a template syntax
/// defect is reported against `name`.
pub fn render_checked(
    name: &str,
    decl: &Vec<crate::library::PromptArgument>,
    content: &str,
    arguments: &PromptArgs,
) -> (r: Result<String, PromptError>)
    ensures
        match first_missing(crate::library::args_view(decl@), arguments@) {
            Some(n) => (r matches Err(e) && (e matches PromptError::MissingArgument(m) && m@
                == n)),
            None => match render_spec(content@, arguments@) {
                Some(s) => (r matches Ok(out) && out@ == s),
                None => (r matches Err(e) && (e matches PromptError::InvalidTemplate { file }
                    && file@ == name@)),
            },
        },
{
    match first_missing_exec(decl, arguments) {
        Some(n) => Err(PromptError::MissingArgument(n)),
        None => {
            let renderer = TemplateRenderer::new();
            renderer.render(name, content, arguments)
        },
    }
}

/// The template renderer. It keeps no state between calls: rendering
/// is a pure function of the template and the arguments.
pub struct TemplateRenderer {}

impl TemplateRenderer {
    /// A fresh renderer.
    pub fn new() -> (r: TemplateRenderer) {
        TemplateRenderer {  }
    }

    /// Expand `template_content` under `arguments`. A syntax defect
    /// fails the call with an error naming `template_name`; an unbound
    /// argument name never does.
    pub fn render(
        &self,
        template_name: &str,
        template_content: &str,
        arguments: &PromptArgs,
    ) -> (r: Result<String, PromptError>)
        ensures
            match r {
                Ok(s) => render_spec(template_content@, arguments@) == Some(s@),
                Err(e) => render_spec(template_content@, arguments@) is None && (e matches
                    PromptError::InvalidTemplate { file } && file@ == template_name@),
            },
    {
        let tv = str_to_chars(template_content);
        match render_chars(&tv, arguments) {
            Some(out) => Ok(chars_to_string(&out)),
            None => Err(
                PromptError::InvalidTemplate { file: String::from_str(template_name) },
            ),
        }
    }
}

} // verus!
